//! Text as a sequence of characters: searching, splitting, trimming and
//! numbers.
//!
//! A `&str` or `String` is modelled by the sequence of its characters. The
//! spec functions say what each operation means on that sequence.
use vstd::prelude::*;
use vstd::slice::slice_subrange;

verus! {

/// Appends one character to the end of the string.
pub assume_specification[ String::push ](string: &mut String, ch: char)
    ensures
        final(string)@ == old(string)@.push(ch),
;

/// The views of the elements, in order.
pub open spec fn views<T: View>(s: Seq<T>) -> Seq<T::V> {
    Seq::new(s.len(), |i: int| s[i]@)
}

pub broadcast proof fn lemma_views_push<T: View>(s: Seq<T>, x: T)
    ensures
        #[trigger] views(s.push(x)) == views(s).push(x@),
{
    assert(views(s.push(x)) =~= views(s).push(x@));
}

/// The view of the value, where there is one.
pub open spec fn opt_view<T: View>(o: Option<T>) -> Option<T::V> {
    match o {
        Some(x) => Some(x@),
        None => None,
    }
}

/// Copies a list of strings.
pub fn clone_all(v: &Vec<String>) -> (r: Vec<String>)
    ensures
        r@ == v@,
{
    let mut out: Vec<String> = Vec::new();
    let mut i: usize = 0;
    while i < v.len()
        invariant
            i <= v.len(),
            out@ == v@.take(i as int),
        decreases v.len() - i,
    {
        out.push(v[i].clone());
        i = i + 1;
        assert(v@.take(i as int) == v@.take(i - 1).push(v@[i - 1]));
    }
    assert(v@.take(v@.len() as int) == v@);
    out
}

/// All parts, one after the other.
pub open spec fn concat(parts: Seq<Seq<char>>) -> Seq<char>
    decreases parts.len(),
{
    if parts.len() == 0 {
        Seq::empty()
    } else {
        concat(parts.drop_last()) + parts.last()
    }
}

/// The parts with a separator between each two.
pub open spec fn joined(parts: Seq<Seq<char>>, separator: Seq<char>) -> Seq<char>
    decreases parts.len(),
{
    if parts.len() == 0 {
        Seq::empty()
    } else if parts.len() == 1 {
        parts[0]
    } else {
        joined(parts.drop_last(), separator) + separator + parts.last()
    }
}

/// Joins the first `n` parts, with a separator between each two.
pub fn join(parts: &Vec<String>, n: usize, separator: &str) -> (r: String)
    requires
        n <= parts@.len(),
    ensures
        r@ == joined(views(parts@).take(n as int), separator@),
{
    let ghost all = views(parts@);
    let mut out: String = String::new();
    let mut i: usize = 0;
    assert(all.take(0) =~= Seq::empty());
    while i < n
        invariant
            i <= n <= parts@.len(),
            all == views(parts@),
            out@ == joined(all.take(i as int), separator@),
        decreases n - i,
    {
        if i > 0 {
            out.append(separator);
        }
        out.append(parts[i].as_str());
        proof {
            assert(all.take(i + 1).drop_last() == all.take(i as int));
            assert(all.take(i + 1).last() == parts@[i as int]@);
            if i == 0 {
                assert(out@ =~= parts@[0]@);
            }
        }
        i = i + 1;
    }
    out
}

/// So many spaces.
pub open spec fn spaces(n: nat) -> Seq<char> {
    Seq::new(n, |i: int| ' ')
}

/// Appends so many spaces.
pub fn append_spaces(out: &mut String, n: usize)
    ensures
        final(out)@ == old(out)@ + spaces(n as nat),
{
    let ghost before = out@;
    let mut i: usize = 0;
    assert(before =~= before + spaces(0));
    while i < n
        invariant
            i <= n,
            out@ == before + spaces(i as nat),
        decreases n - i,
    {
        out.push(' ');
        assert(out@ =~= before + spaces((i + 1) as nat));
        i = i + 1;
    }
}

/// The characters of a string.
pub fn chars(s: &str) -> (r: Vec<char>)
    ensures
        r@ == s@,
{
    let mut out: Vec<char> = Vec::new();
    for c in it: s.chars()
        invariant
            it.seq() == s@,
            out@ == it.seq().take(it.index() as int),
    {
        out.push(c);
    }
    assert(s@.take(s@.len() as int) == s@);
    out
}

/// The string made of these characters.
pub fn string(s: &[char]) -> (r: String)
    ensures
        r@ == s@,
{
    let mut out: String = String::new();
    let mut i: usize = 0;
    while i < s.len()
        invariant
            i <= s.len(),
            out@ == s@.take(i as int),
        decreases s.len() - i,
    {
        out.push(s[i]);
        i = i + 1;
        assert(s@.take(i as int) == s@.take(i - 1).push(s@[i - 1]));
    }
    assert(s@.take(s@.len() as int) == s@);
    out
}

/// How many bytes a text takes in UTF-8.
pub open spec fn bytes_len(s: Seq<char>) -> nat {
    vstd::utf8::encode_utf8(s).len()
}

/// How many bytes a string takes.
pub fn byte_len(s: &str) -> (r: usize)
    ensures
        r == bytes_len(s@),
{
    s.as_bytes().len()
}

/// Whether two character sequences are the same.
pub fn same(a: &[char], b: &[char]) -> (r: bool)
    ensures
        r == (a@ == b@),
{
    if a.len() != b.len() {
        return false;
    }
    let mut i: usize = 0;
    while i < a.len()
        invariant
            i <= a.len() == b.len(),
            forall|k: int| 0 <= k < i ==> a@[k] == b@[k],
        decreases a.len() - i,
    {
        if a[i] != b[i] {
            return false;
        }
        i = i + 1;
    }
    assert(a@ == b@);
    true
}

/// Whether two strings are the same.
pub fn str_same(a: &str, b: &str) -> (r: bool)
    ensures
        r == (a@ == b@),
{
    same(&chars(a), &chars(b))
}

/// `a` comes before `b` in the order of the alphabet of characters.
pub open spec fn precedes(a: Seq<char>, b: Seq<char>) -> bool
    decreases a.len(),
{
    if b.len() == 0 {
        false
    } else if a.len() == 0 {
        true
    } else if a[0] != b[0] {
        a[0] < b[0]
    } else {
        precedes(a.drop_first(), b.drop_first())
    }
}

pub proof fn lemma_precedes_total(a: Seq<char>, b: Seq<char>)
    ensures
        precedes(a, b) || precedes(b, a) || a == b,
        !(precedes(a, b) && precedes(b, a)),
        !precedes(a, a),
    decreases a.len(),
{
    if a.len() > 0 && b.len() > 0 {
        lemma_precedes_total(a.drop_first(), b.drop_first());
        if a[0] == b[0] && a.drop_first() == b.drop_first() {
            assert(a =~= seq![a[0]] + a.drop_first());
            assert(b =~= seq![b[0]] + b.drop_first());
        }
    } else if a.len() == 0 && b.len() == 0 {
        assert(a =~= b);
    }
    if a.len() > 0 {
        lemma_precedes_total(a.drop_first(), a.drop_first());
    }
}

pub proof fn lemma_precedes_transitive(a: Seq<char>, b: Seq<char>, c: Seq<char>)
    requires
        precedes(a, b),
        precedes(b, c),
    ensures
        precedes(a, c),
    decreases a.len(),
{
    if a.len() > 0 && a[0] == b[0] && b[0] == c[0] {
        lemma_precedes_transitive(a.drop_first(), b.drop_first(), c.drop_first());
    }
}

/// Whether `a` comes before `b`.
pub fn comes_before(a: &[char], b: &[char]) -> (r: bool)
    ensures
        r == precedes(a@, b@),
{
    let mut i: usize = 0;
    assert(a@.skip(0) == a@ && b@.skip(0) == b@);
    while i < a.len() && i < b.len() && a[i] == b[i]
        invariant
            i <= a.len(),
            i <= b.len(),
            precedes(a@, b@) == precedes(a@.skip(i as int), b@.skip(i as int)),
        decreases a.len() - i,
    {
        assert(a@.skip(i as int).drop_first() == a@.skip(i + 1));
        assert(b@.skip(i as int).drop_first() == b@.skip(i + 1));
        i = i + 1;
    }
    if i == b.len() {
        false
    } else if i == a.len() {
        true
    } else {
        assert(a@.skip(i as int)[0] == a@[i as int]);
        assert(b@.skip(i as int)[0] == b@[i as int]);
        a[i] < b[i]
    }
}

/// `p` stands in `s` from position `i` on.
pub open spec fn occurs_at(s: Seq<char>, p: Seq<char>, i: int) -> bool {
    0 <= i && i + p.len() <= s.len() && s.subrange(i, i + p.len()) == p
}

/// `s` begins with `p`.
pub open spec fn begins(s: Seq<char>, p: Seq<char>) -> bool {
    occurs_at(s, p, 0)
}

/// `p` stands somewhere in `s`.
pub open spec fn contains(s: Seq<char>, p: Seq<char>) -> bool {
    exists|i: int| occurs_at(s, p, i)
}

/// `i` is the first position at which `p` stands in `s`.
pub open spec fn first_at(s: Seq<char>, p: Seq<char>, i: int) -> bool {
    occurs_at(s, p, i) && forall|j: int| 0 <= j < i ==> !occurs_at(s, p, j)
}

/// `i` is the last position at which `p` stands in `s`.
pub open spec fn last_at(s: Seq<char>, p: Seq<char>, i: int) -> bool {
    occurs_at(s, p, i) && forall|j: int| i < j ==> !occurs_at(s, p, j)
}

/// Whether `p` stands in `s` from position `i` on.
pub fn stands_at(s: &[char], p: &[char], i: usize) -> (r: bool)
    ensures
        r == occurs_at(s@, p@, i as int),
{
    if i > s.len() || p.len() > s.len() - i {
        return false;
    }
    same(slice_subrange(s, i, i + p.len()), p)
}

/// Whether `s` begins with `p`.
pub fn starts_with(s: &[char], p: &str) -> (r: bool)
    ensures
        r == begins(s@, p@),
{
    stands_at(s, &chars(p), 0)
}

/// The first position at which `p` stands in `s`.
pub fn find(s: &[char], p: &str) -> (r: Option<usize>)
    ensures
        match r {
            Some(i) => first_at(s@, p@, i as int),
            None => !contains(s@, p@),
        },
{
    let pat: Vec<char> = chars(p);
    if pat.len() > s.len() {
        return None;
    }
    let last: usize = s.len() - pat.len();
    let mut i: usize = 0;
    while i < last
        invariant
            i <= last,
            last == s.len() - pat.len(),
            pat@ == p@,
            forall|j: int| 0 <= j < i ==> !occurs_at(s@, p@, j),
        decreases last - i,
    {
        if stands_at(s, &pat, i) {
            return Some(i);
        }
        i = i + 1;
    }
    if stands_at(s, &pat, last) {
        Some(last)
    } else {
        None
    }
}

/// Whether `p` stands somewhere in `s`.
pub fn has(s: &str, p: &str) -> (r: bool)
    ensures
        r == contains(s@, p@),
{
    match find(&chars(s), p) {
        Some(_) => true,
        None => false,
    }
}

/// The last position at which `c` stands in `s`.
pub fn rposition(s: &[char], c: char) -> (r: Option<usize>)
    ensures
        match r {
            Some(i) => i < s@.len() && s@[i as int] == c && forall|j: int|
                i < j < s@.len() ==> s@[j] != c,
            None => !s@.contains(c),
        },
{
    let mut i: usize = s.len();
    while i > 0
        invariant
            i <= s.len(),
            forall|j: int| i <= j < s@.len() ==> s@[j] != c,
        decreases i,
    {
        i = i - 1;
        if s[i] == c {
            return Some(i);
        }
    }
    None
}

/// How many characters stand before the first `c`; all of them where there is
/// none.
pub open spec fn upto(s: Seq<char>, c: char) -> nat
    decreases s.len(),
{
    if s.len() == 0 || s[0] == c {
        0
    } else {
        1 + upto(s.drop_first(), c)
    }
}

pub proof fn lemma_upto(s: Seq<char>, c: char, n: int)
    requires
        0 <= n <= s.len(),
        forall|k: int| 0 <= k < n ==> s[k] != c,
        n < s.len() ==> s[n] == c,
    ensures
        upto(s, c) == n,
    decreases n,
{
    if n > 0 {
        lemma_upto(s.drop_first(), c, n - 1);
    }
}

/// How many characters stand before the first `c`.
pub fn position(s: &[char], c: char) -> (r: usize)
    ensures
        r == upto(s@, c),
        r <= s@.len(),
{
    let mut i: usize = 0;
    while i < s.len() && s[i] != c
        invariant
            i <= s.len(),
            forall|k: int| 0 <= k < i ==> s@[k] != c,
        decreases s.len() - i,
    {
        i = i + 1;
    }
    proof {
        lemma_upto(s@, c, i as int);
    }
    i
}

/// How many characters the text has up to and with the last `c`; zero where
/// there is none.
pub open spec fn through_last(s: Seq<char>, c: char) -> nat
    decreases s.len(),
{
    if s.len() == 0 || s.last() == c {
        s.len()
    } else {
        through_last(s.drop_last(), c)
    }
}

pub proof fn lemma_through_last(s: Seq<char>, c: char, n: int)
    requires
        0 <= n <= s.len(),
        n > 0 ==> s[n - 1] == c,
        forall|k: int| n <= k < s.len() ==> s[k] != c,
    ensures
        through_last(s, c) == n,
    decreases s.len(),
{
    if n < s.len() {
        assert(s[s.len() - 1] != c);
        lemma_through_last(s.drop_last(), c, n);
    }
}

/// How many characters the text has up to and with the last `c`.
pub fn end_of_last(s: &[char], c: char) -> (r: usize)
    ensures
        r == through_last(s@, c),
        r <= s@.len(),
{
    let mut i: usize = s.len();
    while i > 0 && s[i - 1] != c
        invariant
            i <= s.len(),
            forall|k: int| i <= k < s@.len() ==> s@[k] != c,
        decreases i,
    {
        i = i - 1;
    }
    proof {
        lemma_through_last(s@, c, i as int);
    }
    i
}

/// The parts of `s` between occurrences of `c`: one more than `c` occurs.
pub open spec fn split(s: Seq<char>, c: char) -> Seq<Seq<char>>
    decreases s.len(),
{
    let n: int = upto(s, c) as int;
    if 0 <= n < s.len() {
        seq![s.take(n)] + split(s.skip(n + 1), c)
    } else {
        seq![s]
    }
}

/// Splits `s` at every `c`.
pub fn split_at_each(s: &[char], c: char) -> (r: Vec<Vec<char>>)
    ensures
        views(r@) == split(s@, c),
{
    let mut out: Vec<Vec<char>> = Vec::new();
    let mut rest: &[char] = s;
    loop
        invariant_except_break
            split(s@, c) == views(out@) + split(rest@, c),
        ensures
            split(s@, c) == views(out@),
        decreases rest@.len(),
    {
        let n: usize = position(rest, c);
        let part: Vec<char> = vstd::slice::slice_to_vec(slice_subrange(rest, 0, n));
        let ghost before = out@;
        out.push(part);
        proof {
            lemma_views_push(before, part);
        }
        if n == rest.len() {
            assert(rest@.subrange(0, n as int) == rest@);
            break;
        }
        assert(rest@.subrange(0, n as int) == rest@.take(n as int));
        assert(rest@.subrange(n + 1, rest@.len() as int) == rest@.skip(n + 1));
        rest = slice_subrange(rest, n + 1, rest.len());
    }
    out
}

/// The line without the carriage return that ends it.
pub open spec fn chomp(s: Seq<char>) -> Seq<char> {
    if s.len() > 0 && s.last() == '\r' {
        s.drop_last()
    } else {
        s
    }
}

/// The lines of a text. A line ends with `\n` or `\r\n`, which is not part of
/// it; the last line may end with the text.
pub open spec fn lines_of(s: Seq<char>) -> Seq<Seq<char>>
    decreases s.len(),
{
    let n: int = upto(s, '\n') as int;
    if s.len() == 0 {
        Seq::empty()
    } else if 0 <= n < s.len() {
        seq![chomp(s.take(n))] + lines_of(s.skip(n + 1))
    } else {
        seq![s]
    }
}

/// Splits a text into its lines.
pub fn lines(s: &[char]) -> (r: Vec<Vec<char>>)
    ensures
        views(r@) == lines_of(s@),
{
    let mut out: Vec<Vec<char>> = Vec::new();
    let mut rest: &[char] = s;
    while rest.len() > 0
        invariant
            lines_of(s@) == views(out@) + lines_of(rest@),
        decreases rest@.len(),
    {
        let n: usize = position(rest, '\n');
        let ghost before = out@;
        let ghost whole = rest@;
        if n == rest.len() {
            let line: Vec<char> = vstd::slice::slice_to_vec(rest);
            out.push(line);
            rest = slice_subrange(rest, n, n);
            proof {
                lemma_views_push(before, line);
            }
        } else {
            let end: usize = if n > 0 && rest[n - 1] == '\r' {
                n - 1
            } else {
                n
            };
            let line: Vec<char> = vstd::slice::slice_to_vec(slice_subrange(rest, 0, end));
            out.push(line);
            assert(whole.subrange(0, end as int) == chomp(whole.take(n as int)));
            assert(whole.subrange(n + 1, whole.len() as int) == whole.skip(n + 1));
            rest = slice_subrange(rest, n + 1, rest.len());
            proof {
                lemma_views_push(before, line);
            }
        }
    }
    assert(views(out@) + lines_of(rest@) == views(out@));
    out
}

/// The characters with the Unicode property `White_Space`.
pub open spec fn is_space(c: char) -> bool {
    let n = c as int;
    ||| 0x9 <= n <= 0xd
    ||| n == 0x20
    ||| n == 0x85
    ||| n == 0xa0
    ||| n == 0x1680
    ||| 0x2000 <= n <= 0x200a
    ||| n == 0x2028
    ||| n == 0x2029
    ||| n == 0x202f
    ||| n == 0x205f
    ||| n == 0x3000
}

/// Whether the character is white space.
pub fn space(c: char) -> (r: bool)
    ensures
        r == is_space(c),
{
    let n: u32 = c as u32;
    (0x9 <= n && n <= 0xd) || n == 0x20 || n == 0x85 || n == 0xa0 || n == 0x1680 || (0x2000 <= n
        && n <= 0x200a) || n == 0x2028 || n == 0x2029 || n == 0x202f || n == 0x205f || n == 0x3000
}

/// How many characters the leading run without white space has.
pub open spec fn word_len(s: Seq<char>) -> nat
    decreases s.len(),
{
    if s.len() == 0 || is_space(s[0]) {
        0
    } else {
        1 + word_len(s.drop_first())
    }
}

pub proof fn lemma_word_len(s: Seq<char>, n: int)
    requires
        0 <= n <= s.len(),
        forall|k: int| 0 <= k < n ==> !is_space(s[k]),
        n < s.len() ==> is_space(s[n]),
    ensures
        word_len(s) == n,
    decreases n,
{
    if n > 0 {
        lemma_word_len(s.drop_first(), n - 1);
    }
}

/// The maximal runs without white space, in order.
pub open spec fn words_of(s: Seq<char>) -> Seq<Seq<char>>
    decreases s.len(),
{
    if s.len() == 0 {
        Seq::empty()
    } else if is_space(s[0]) {
        words_of(s.drop_first())
    } else {
        let n: int = word_len(s) as int;
        if 0 < n <= s.len() {
            seq![s.take(n)] + words_of(s.skip(n))
        } else {
            Seq::empty()
        }
    }
}

/// Splits a text at white space.
pub fn words(s: &[char]) -> (r: Vec<Vec<char>>)
    ensures
        views(r@) == words_of(s@),
{
    let mut out: Vec<Vec<char>> = Vec::new();
    let mut rest: &[char] = s;
    while rest.len() > 0
        invariant
            words_of(s@) == views(out@) + words_of(rest@),
        decreases rest@.len(),
    {
        let ghost whole = rest@;
        if space(rest[0]) {
            assert(whole.subrange(1, whole.len() as int) == whole.drop_first());
            rest = slice_subrange(rest, 1, rest.len());
        } else {
            let mut n: usize = 1;
            while n < rest.len() && !space(rest[n])
                invariant
                    1 <= n <= rest.len(),
                    whole == rest@,
                    forall|k: int| 0 <= k < n ==> !is_space(whole[k]),
                decreases rest.len() - n,
            {
                n = n + 1;
            }
            let ghost before = out@;
            let word: Vec<char> = vstd::slice::slice_to_vec(slice_subrange(rest, 0, n));
            out.push(word);
            proof {
                lemma_word_len(whole, n as int);
                lemma_views_push(before, word);
            }
            assert(whole.subrange(0, n as int) == whole.take(n as int));
            assert(whole.subrange(n as int, whole.len() as int) == whole.skip(n as int));
            rest = slice_subrange(rest, n, rest.len());
        }
    }
    assert(views(out@) + words_of(rest@) == views(out@));
    out
}

/// The text without the white space it begins with.
pub open spec fn trim_start(s: Seq<char>) -> Seq<char>
    decreases s.len(),
{
    if s.len() > 0 && is_space(s[0]) {
        trim_start(s.drop_first())
    } else {
        s
    }
}

/// The text without the white space it ends with.
pub open spec fn trim_end(s: Seq<char>) -> Seq<char>
    decreases s.len(),
{
    if s.len() > 0 && is_space(s.last()) {
        trim_end(s.drop_last())
    } else {
        s
    }
}

/// The text without the white space at either end.
pub open spec fn trimmed(s: Seq<char>) -> Seq<char> {
    trim_end(trim_start(s))
}

/// Takes the white space off the beginning of a text.
pub fn trim_left(s: &[char]) -> (r: &[char])
    ensures
        r@ == trim_start(s@),
{
    let mut rest: &[char] = s;
    while rest.len() > 0 && space(rest[0])
        invariant
            trim_start(s@) == trim_start(rest@),
        decreases rest@.len(),
    {
        assert(rest@.subrange(1, rest@.len() as int) == rest@.drop_first());
        rest = slice_subrange(rest, 1, rest.len());
    }
    rest
}

/// Takes the white space off both ends of a text.
pub fn trim(s: &[char]) -> (r: &[char])
    ensures
        r@ == trimmed(s@),
{
    let mut rest: &[char] = trim_left(s);
    while rest.len() > 0 && space(rest[rest.len() - 1])
        invariant
            trimmed(s@) == trim_end(rest@),
        decreases rest@.len(),
    {
        assert(rest@.subrange(0, rest@.len() - 1) == rest@.drop_last());
        rest = slice_subrange(rest, 0, rest.len() - 1);
    }
    rest
}

/// The lower-case form of an ASCII letter; any other character as it is.
pub open spec fn lower(c: char) -> char {
    if 'A' <= c && c <= 'Z' {
        (c as int + 32) as char
    } else {
        c
    }
}

/// The text with its ASCII letters in lower case.
pub open spec fn lowered(s: Seq<char>) -> Seq<char> {
    s.map_values(|c: char| lower(c))
}

/// Puts the ASCII letters of a text in lower case.
pub fn to_lower(s: &[char]) -> (r: Vec<char>)
    ensures
        r@ == lowered(s@),
{
    let mut out: Vec<char> = Vec::new();
    let mut i: usize = 0;
    while i < s.len()
        invariant
            i <= s.len(),
            out@ == lowered(s@.take(i as int)),
        decreases s.len() - i,
    {
        let c: char = s[i];
        out.push(
            if 'A' <= c && c <= 'Z' {
                ((c as u32 + 32) as u8) as char
            } else {
                c
            },
        );
        i = i + 1;
        assert(out@ =~= lowered(s@.take(i as int)));
    }
    assert(s@.take(s@.len() as int) == s@);
    out
}

/// A decimal digit.
pub open spec fn is_digit(c: char) -> bool {
    '0' <= c && c <= '9'
}

/// The number that a run of decimal digits stands for.
pub open spec fn digits_value(s: Seq<char>) -> nat
    decreases s.len(),
{
    if s.len() == 0 {
        0
    } else {
        10 * digits_value(s.drop_last()) + (s.last() as int - '0' as int) as nat
    }
}

/// The text without the plus sign it begins with.
pub open spec fn without_plus(s: Seq<char>) -> Seq<char> {
    if s.len() > 0 && s[0] == '+' {
        s.skip(1)
    } else {
        s
    }
}

/// The number written in `s`, if it is one and at most `max`: decimal digits,
/// with or without a plus sign before them.
pub open spec fn number(s: Seq<char>, max: nat) -> Option<nat> {
    let d = without_plus(s);
    if d.len() > 0 && (forall|i: int| 0 <= i < d.len() ==> is_digit(#[trigger] d[i]))
        && digits_value(d) <= max {
        Some(digits_value(d))
    } else {
        None
    }
}

proof fn lemma_digits_value_grows(s: Seq<char>, n: int)
    requires
        0 <= n <= s.len(),
    ensures
        digits_value(s.take(n)) <= digits_value(s),
    decreases s.len(),
{
    if n < s.len() {
        lemma_digits_value_grows(s.drop_last(), n);
        assert(s.drop_last().take(n) == s.take(n));
    } else {
        assert(s.take(n) == s);
    }
}

/// Reads the number written in `s`, where it is at most `max`.
pub fn parse_number(s: &[char], max: u64) -> (r: Option<u64>)
    requires
        max <= u32::MAX,
    ensures
        match r {
            Some(n) => number(s@, max as nat) == Some(n as nat),
            None => number(s@, max as nat) is None,
        },
{
    let d: &[char] = if s.len() > 0 && s[0] == '+' {
        assert(s@.subrange(1, s@.len() as int) == s@.skip(1));
        slice_subrange(s, 1, s.len())
    } else {
        s
    };
    if d.len() == 0 {
        return None;
    }
    let mut value: u64 = 0;
    let mut i: usize = 0;
    while i < d.len()
        invariant
            i <= d.len(),
            max <= u32::MAX,
            value <= max,
            value == digits_value(d@.take(i as int)),
            d@ == without_plus(s@),
            forall|k: int| 0 <= k < i ==> is_digit(#[trigger] d@[k]),
        decreases d.len() - i,
    {
        let c: char = d[i];
        if c < '0' || c > '9' {
            assert(!is_digit(d@[i as int]));
            return None;
        }
        let next: u64 = 10 * value + (c as u32 - '0' as u32) as u64;
        proof {
            assert(d@.take(i + 1).drop_last() == d@.take(i as int));
            lemma_digits_value_grows(d@, i + 1);
        }
        if next > max {
            return None;
        }
        value = next;
        i = i + 1;
    }
    assert(d@.take(d@.len() as int) == d@);
    Some(value)
}

/// The decimal notation of a number.
pub open spec fn dec(n: nat) -> Seq<char>
    decreases n,
{
    if n < 10 {
        seq![('0' as int + n) as char]
    } else {
        dec(n / 10).push(('0' as int + n % 10) as char)
    }
}

/// Writes a number in decimal notation.
pub fn decimal(n: u64) -> (r: String)
    ensures
        r@ == dec(n as nat),
    decreases n,
{
    let digit: char = (48u8 + (n % 10) as u8) as char;
    if n < 10 {
        let mut out: String = String::new();
        out.push(digit);
        assert(out@ =~= seq![digit]);
        out
    } else {
        let mut out: String = decimal(n / 10);
        out.push(digit);
        out
    }
}

/// What is written in decimal notation reads back as the same number.
pub proof fn law_number_of_dec(n: nat, max: nat)
    ensures
        number(dec(n), max) == (if n <= max {
            Some(n)
        } else {
            None
        }),
{
    lemma_dec(n);
    assert(is_digit(dec(n)[0]));
    assert('+' < '0');
}

/// Decimal notation has digits only, and they stand for the number.
pub proof fn lemma_dec(n: nat)
    ensures
        dec(n).len() > 0,
        forall|i: int| 0 <= i < dec(n).len() ==> is_digit(#[trigger] dec(n)[i]),
        digits_value(dec(n)) == n,
    decreases n,
{
    if n < 10 {
        assert(dec(n).drop_last() =~= Seq::<char>::empty());
        assert(digits_value(dec(n).drop_last()) == 0);
    } else {
        lemma_dec(n / 10);
        assert(dec(n).drop_last() =~= dec(n / 10));
        assert forall|i: int| 0 <= i < dec(n).len() implies is_digit(#[trigger] dec(n)[i]) by {
            if i < dec(n / 10).len() {
                assert(dec(n)[i] == dec(n / 10)[i]);
            }
        }
    }
}

// --- how texts are taken apart -------------------------------------------

/// A text without the separator is one part; two texts with the separator
/// between them have the parts of the one and then those of the other.
pub proof fn law_split(a: Seq<char>, c: char, b: Seq<char>)
    ensures
        !a.contains(c) ==> split(a, c) == seq![a],
        split(a + seq![c] + b, c) == split(a, c) + split(b, c),
    decreases a.len(),
{
    let s = a + seq![c] + b;
    if !a.contains(c) {
        lemma_upto(a, c, a.len() as int);
        assert(s[a.len() as int] == c);
        assert forall|k: int| 0 <= k < a.len() implies s[k] != c by {
            assert(s[k] == a[k]);
        }
        lemma_upto(s, c, a.len() as int);
        assert(s.take(a.len() as int) =~= a);
        assert(s.skip((a.len() + 1) as int) =~= b);
    } else {
        lemma_first_of(a, c);
        let n: int = upto(a, c) as int;
        assert forall|k: int| 0 <= k < n implies s[k] != c by {
            assert(s[k] == a[k]);
        }
        assert(s[n] == a[n]);
        lemma_upto(s, c, n);
        assert(s.take(n) =~= a.take(n));
        assert(s.skip(n + 1) =~= a.skip(n + 1) + seq![c] + b);
        law_split(a.skip(n + 1), c, b);
        assert(split(s, c) =~= split(a, c) + split(b, c));
    }
}

proof fn lemma_first_of(s: Seq<char>, c: char)
    requires
        s.contains(c),
    ensures
        upto(s, c) < s.len(),
        s[upto(s, c) as int] == c,
        forall|k: int| 0 <= k < upto(s, c) ==> s[k] != c,
    decreases s.len(),
{
    if s[0] != c {
        let i = s.index_of(c);
        assert(s.drop_first()[i - 1] == c);
        lemma_first_of(s.drop_first(), c);
        assert forall|k: int| 0 <= k < upto(s, c) implies s[k] != c by {
            if k > 0 {
                assert(s.drop_first()[k - 1] == s[k]);
            }
        }
    }
}

/// What a line may end with.
pub open spec fn is_line_end(e: Seq<char>) -> bool {
    e == seq!['\n'] || e == seq!['\r', '\n']
}

/// A line that ends, and then more text: the line without its end, and then the
/// lines of the rest. A last line need not end; a text without characters has no
/// lines.
pub proof fn law_lines(line: Seq<char>, end: Seq<char>, rest: Seq<char>)
    requires
        !line.contains('\n'),
        is_line_end(end),
        line.len() > 0 && end.len() == 1 ==> line.last() != '\r',
    ensures
        lines_of(line + end + rest) == seq![line] + lines_of(rest),
{
    let s = line + end + rest;
    let n = line.len() + end.len() - 1;
    assert(s[n] == '\n');
    assert forall|k: int| 0 <= k < n implies s[k] != '\n' by {
        if k < line.len() {
            assert(s[k] == line[k]);
        } else {
            assert(s[k] == end[k - line.len()]);
        }
    }
    lemma_upto(s, '\n', n);
    assert(s.skip(n + 1) =~= rest);
    if end.len() == 1 {
        assert(s.take(n) =~= line);
    } else {
        assert(s.take(n) =~= line.push('\r'));
        assert(line.push('\r').drop_last() =~= line);
    }
}

/// A text without a line end is one line, whatever it ends with, unless it is
/// empty.
pub proof fn law_last_line(line: Seq<char>)
    requires
        !line.contains('\n'),
    ensures
        lines_of(line) == if line.len() == 0 {
            Seq::<Seq<char>>::empty()
        } else {
            seq![line]
        },
{
    lemma_upto(line, '\n', line.len() as int);
}

/// Words are what white space leaves: a word ends at the next white space, and
/// white space before a word is none of it.
pub proof fn law_words(word: Seq<char>, gap: char, rest: Seq<char>)
    requires
        word.len() > 0,
        forall|i: int| 0 <= i < word.len() ==> !is_space(#[trigger] word[i]),
        is_space(gap),
    ensures
        words_of(Seq::<char>::empty()) == Seq::<Seq<char>>::empty(),
        words_of(word) == seq![word],
        words_of(word + seq![gap] + rest) == seq![word] + words_of(rest),
        words_of(seq![gap] + rest) == words_of(rest),
{
    let n: int = word.len() as int;
    lemma_word_len(word, n);
    assert(word.take(n) =~= word);
    assert(word.skip(n) =~= Seq::<char>::empty());
    assert(words_of(word.skip(n)) =~= Seq::<Seq<char>>::empty());
    let s = word + seq![gap] + rest;
    assert(s[n] == gap);
    assert forall|k: int| 0 <= k < n implies !is_space(s[k]) by {
        assert(s[k] == word[k]);
    }
    lemma_word_len(s, n);
    assert(s.take(n) =~= word);
    assert(s.skip(n) =~= seq![gap] + rest);
    assert((seq![gap] + rest).drop_first() =~= rest);
    assert(words_of(s) =~= seq![word] + words_of(seq![gap] + rest));
}

/// White space is taken off both ends, and nothing else is.
pub proof fn law_trimmed(before: Seq<char>, s: Seq<char>, after: Seq<char>)
    requires
        forall|i: int| 0 <= i < before.len() ==> is_space(#[trigger] before[i]),
        forall|i: int| 0 <= i < after.len() ==> is_space(#[trigger] after[i]),
        s.len() > 0 ==> !is_space(s[0]) && !is_space(s.last()),
    ensures
        trimmed(before + s + after) == s,
        trim_start(before + s + after) == if s.len() > 0 {
            s + after
        } else {
            Seq::<char>::empty()
        },
{
    lemma_trim_start(before, s + after);
    assert(before + s + after =~= before + (s + after));
    if s.len() > 0 {
        assert((s + after)[0] == s[0]);
        lemma_trim_end(s, after);
    } else {
        assert(s + after =~= after);
        assert(after + Seq::<char>::empty() =~= after);
        lemma_trim_start(after, Seq::empty());
        assert(s =~= Seq::<char>::empty());
    }
}

proof fn lemma_trim_start(before: Seq<char>, s: Seq<char>)
    requires
        forall|i: int| 0 <= i < before.len() ==> is_space(#[trigger] before[i]),
    ensures
        trim_start(before + s) == trim_start(s),
    decreases before.len(),
{
    if before.len() > 0 {
        assert((before + s)[0] == before[0]);
        assert((before + s).drop_first() =~= before.drop_first() + s);
        lemma_trim_start(before.drop_first(), s);
    } else {
        assert(before + s =~= s);
    }
}

proof fn lemma_trim_end(s: Seq<char>, after: Seq<char>)
    requires
        s.len() > 0,
        !is_space(s.last()),
        forall|i: int| 0 <= i < after.len() ==> is_space(#[trigger] after[i]),
    ensures
        trim_end(s + after) == s,
    decreases after.len(),
{
    if after.len() > 0 {
        assert((s + after).last() == after.last());
        assert((s + after).drop_last() =~= s + after.drop_last());
        lemma_trim_end(s, after.drop_last());
    } else {
        assert(s + after =~= s);
    }
}

/// A text in lower case has no capital letter, and differs from the text in its
/// capital letters alone, each by its place in the alphabet.
pub proof fn law_lowered(s: Seq<char>)
    ensures
        lowered(s).len() == s.len(),
        forall|i: int|
            0 <= i < s.len() ==> !('A' <= #[trigger] lowered(s)[i] <= 'Z') && if 'A' <= s[i]
                <= 'Z' {
                lowered(s)[i] as int - 'a' as int == s[i] as int - 'A' as int
            } else {
                lowered(s)[i] == s[i]
            },
{
}

/// A number is read digit by digit; a plus sign before it changes nothing, and
/// what is no digit makes it no number.
pub proof fn law_number(s: Seq<char>, c: char, max: nat)
    requires
        s.len() > 0,
        s[0] != '+',
    ensures
        number(seq!['+'] + s, max) == number(s, max),
        number(s.push(c), max) == match number(s, max) {
            Some(n) => if '0' <= c <= '9' && 10 * n + (c as int - '0' as int) <= max {
                Some((10 * n + (c as int - '0' as int)) as nat)
            } else {
                None
            },
            None => None,
        },
{
    assert((seq!['+'] + s).skip(1) =~= s);
    let t = s.push(c);
    assert(t[0] == s[0]);
    assert(t.drop_last() =~= s);
    assert(t[t.len() - 1] == c);
    if forall|i: int| 0 <= i < s.len() ==> is_digit(#[trigger] s[i]) {
        assert(is_digit(c) ==> forall|i: int| 0 <= i < t.len() ==> is_digit(#[trigger] t[i]));
    } else {
        let i = choose|i: int| 0 <= i < s.len() && !is_digit(#[trigger] s[i]);
        assert(t[i] == s[i]);
    }
}

/// Texts are ordered by the first character in which they differ; a text comes
/// before those that it begins.
pub proof fn law_precedes(p: Seq<char>, a: Seq<char>, b: Seq<char>)
    ensures
        precedes(p + a, p + b) == precedes(a, b),
        a.len() > 0 && b.len() > 0 && a[0] < b[0] ==> precedes(p + a, p + b),
        b.len() > 0 ==> precedes(p, p + b),
        !precedes(p, p),
    decreases p.len(),
{
    if p.len() == 0 {
        assert(p + a =~= a);
        assert(p + b =~= b);
    } else {
        law_precedes(p.drop_first(), a, b);
        assert((p + a).drop_first() =~= p.drop_first() + a);
        assert((p + b).drop_first() =~= p.drop_first() + b);
        assert((p + a)[0] == p[0] && (p + b)[0] == p[0]);
    }
}

pub proof fn lemma_contains_add(a: Seq<char>, b: Seq<char>, p: Seq<char>)
    ensures
        contains(a, p) ==> contains(a + b, p),
        contains(b, p) ==> contains(a + b, p),
{
    if contains(a, p) {
        let i = choose|i: int| occurs_at(a, p, i);
        assert((a + b).subrange(i, i + p.len()) =~= a.subrange(i, i + p.len()));
        assert(occurs_at(a + b, p, i));
    }
    if contains(b, p) {
        let i = choose|i: int| occurs_at(b, p, i);
        assert((a + b).subrange(a.len() + i, a.len() + i + p.len()) =~= b.subrange(i, i + p.len()));
        assert(occurs_at(a + b, p, a.len() + i));
    }
}

pub proof fn lemma_contains_itself(p: Seq<char>)
    ensures
        contains(p, p),
{
    assert(p.subrange(0, p.len() as int) =~= p);
    assert(occurs_at(p, p, 0));
}

/// Decimal notation has no zero before the number, so no number is written in two
/// ways.
pub proof fn law_decimal(n: nat, m: nat)
    ensures
        dec(n)[0] == '0' ==> n == 0,
        n < 10 ==> dec(n).len() == 1,
        dec(n) == dec(m) ==> n == m,
    decreases n,
{
    lemma_dec(n);
    lemma_dec(m);
    if n >= 10 {
        law_decimal(n / 10, m);
        lemma_dec(n / 10);
        assert(dec(n)[0] == dec(n / 10)[0]);
    }
}

/// White space is what Unicode counts as such.
pub proof fn law_white_space(c: char)
    ensures
        is_space(c) <==> {
            ||| c == ' ' || c == '\t' || c == '\n' || c == '\r' || c == '\u{b}' || c == '\u{c}'
            ||| c == '\u{85}' || c == '\u{a0}' || c == '\u{1680}' || c == '\u{2028}' || c
                == '\u{2029}'
            ||| c == '\u{202f}' || c == '\u{205f}' || c == '\u{3000}' || '\u{2000}' <= c
                <= '\u{200a}'
        },
{
}

/// Texts are joined with the separator between each two, and nowhere else.
pub proof fn law_joined(parts: Seq<Seq<char>>, part: Seq<char>, separator: Seq<char>)
    ensures
        joined(Seq::<Seq<char>>::empty(), separator) == Seq::<char>::empty(),
        parts.len() == 0 ==> joined(parts.push(part), separator) == part,
        parts.len() > 0 ==> joined(parts.push(part), separator) == joined(parts, separator)
            + separator + part,
{
    assert(parts.push(part).drop_last() =~= parts);
    if parts.len() == 0 {
        assert(parts.push(part)[0] == part);
    }
}

/// A text stands in another where its characters do, one for one, in the same
/// order and without gaps; it begins one where they are its first.
pub proof fn law_occurs(s: Seq<char>, p: Seq<char>, i: int)
    ensures
        occurs_at(s, p, i) <==> 0 <= i && i + p.len() <= s.len() && forall|k: int|
            0 <= k < p.len() ==> s[i + k] == #[trigger] p[k],
        begins(s, p) <==> p.len() <= s.len() && forall|k: int|
            0 <= k < p.len() ==> s[k] == #[trigger] p[k],
        occurs_at(s, p, i) ==> contains(s, p),
        !contains(s, p) ==> !occurs_at(s, p, i),
        contains(s, p) ==> exists|a: Seq<char>, b: Seq<char>| s == #[trigger] (a + p + b),
{
    lemma_occurs(s, p, i);
    lemma_occurs(s, p, 0);
    if begins(s, p) {
        assert forall|k: int| 0 <= k < p.len() implies s[k] == #[trigger] p[k] by {
            assert(s[0 + k] == p[k]);
        }
    }
    if p.len() <= s.len() && forall|k: int| 0 <= k < p.len() ==> s[k] == #[trigger] p[k] {
        assert forall|k: int| 0 <= k < p.len() implies s[0 + k] == #[trigger] p[k] by {}
    }
    if contains(s, p) {
        let j = choose|j: int| occurs_at(s, p, j);
        lemma_occurs(s, p, j);
        let a = s.take(j);
        let b = s.skip((j + p.len()) as int);
        assert(s =~= a + p + b);
    }
}

proof fn lemma_occurs(s: Seq<char>, p: Seq<char>, i: int)
    ensures
        occurs_at(s, p, i) <==> 0 <= i && i + p.len() <= s.len() && forall|k: int|
            0 <= k < p.len() ==> s[i + k] == #[trigger] p[k],
{
    if 0 <= i && i + p.len() <= s.len() {
        let t = s.subrange(i, i + p.len());
        if t == p {
            assert forall|k: int| 0 <= k < p.len() implies s[i + k] == #[trigger] p[k] by {
                assert(t[k] == s[i + k]);
            }
        }
        if forall|k: int| 0 <= k < p.len() ==> s[i + k] == #[trigger] p[k] {
            assert forall|k: int| 0 <= k < p.len() implies t[k] == #[trigger] p[k] by {}
            assert(t =~= p);
        }
    }
}

} // verus!
