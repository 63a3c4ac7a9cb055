//! JSON values as plain data, read and written by `serde_json`.
use vstd::prelude::*;

use crate::text;

verus! {

/// A JSON value.
#[derive(Debug)]
pub enum Json {
    Null,
    Bool(bool),
    /// A number that is a natural number of 64 bits.
    Natural(u64),
    /// Any other number.
    OtherNumber,
    Text(String),
    Array(Vec<Json>),
    /// The members, in order.
    Object(Vec<(String, Json)>),
}

#[verifier::ext_equal]
pub enum JsonView {
    Null,
    Bool(bool),
    Natural(u64),
    OtherNumber,
    Text(Seq<char>),
    Array(Seq<JsonView>),
    Object(Seq<(Seq<char>, JsonView)>),
}

pub open spec fn json_view(j: Json) -> JsonView
    decreases j,
{
    match j {
        Json::Null => JsonView::Null,
        Json::Bool(b) => JsonView::Bool(b),
        Json::Natural(n) => JsonView::Natural(n),
        Json::OtherNumber => JsonView::OtherNumber,
        Json::Text(s) => JsonView::Text(s@),
        Json::Array(a) => JsonView::Array(array_view(a@)),
        Json::Object(m) => JsonView::Object(object_view(m@)),
    }
}

pub open spec fn array_view(a: Seq<Json>) -> Seq<JsonView>
    decreases a,
{
    Seq::new(
        a.len(),
        |i: int|
            if 0 <= i < a.len() {
                json_view(a[i])
            } else {
                arbitrary()
            },
    )
}

pub open spec fn object_view(m: Seq<(String, Json)>) -> Seq<(Seq<char>, JsonView)>
    decreases m,
{
    Seq::new(
        m.len(),
        |i: int|
            if 0 <= i < m.len() {
                (m[i].0@, json_view(m[i].1))
            } else {
                arbitrary()
            },
    )
}

impl View for Json {
    type V = JsonView;

    open spec fn view(&self) -> JsonView {
        json_view(*self)
    }
}

/// What an array holds.
pub proof fn lemma_array_view(a: Seq<Json>)
    ensures
        array_view(a) == text::views(a),
{
    assert(array_view(a) =~= text::views(a));
}

/// A value of any JSON document.
#[verifier::external_type_specification]
#[verifier::external_body]
pub struct ExValue(serde_json::Value);

/// Why a text is no JSON document.
#[verifier::external_type_specification]
#[verifier::external_body]
pub struct ExError(serde_json::Error);

/// What a `serde_json::Value` holds.
pub uninterp spec fn value_holds(v: serde_json::Value) -> JsonView;

/// What `serde_json::from_str` reads from a text: the value, if the text is one
/// JSON document.
pub uninterp spec fn json_read(text: Seq<char>) -> Option<JsonView>;

/// What `serde_json::to_string` writes for a value.
pub uninterp spec fn json_compact(v: JsonView) -> Seq<char>;

/// What `serde_json::to_string_pretty` writes for a value.
pub uninterp spec fn json_pretty(v: JsonView) -> Seq<char>;

/// `serde_json::from_str`, for a value of any shape: it succeeds on some texts
/// and not on others, and what it reads depends on the text alone.
#[verifier::external_body]
fn read_value(s: &str) -> (r: Result<serde_json::Value, serde_json::Error>)
    ensures
        match r {
            Ok(v) => json_read(s@) == Some(value_holds(v)),
            Err(_) => json_read(s@) is None,
        },
{
    serde_json::from_str(s)
}

/// A value whose parts have not been taken apart yet.
enum Layer {
    Null,
    Bool(bool),
    Natural(u64),
    OtherNumber,
    Text(String),
    Array(Vec<serde_json::Value>),
    Object(Vec<(String, serde_json::Value)>),
}

spec fn elements_hold(a: Seq<serde_json::Value>) -> Seq<JsonView> {
    Seq::new(a.len(), |i: int| value_holds(a[i]))
}

spec fn members_hold(m: Seq<(String, serde_json::Value)>) -> Seq<(Seq<char>, JsonView)> {
    Seq::new(m.len(), |i: int| (m[i].0@, value_holds(m[i].1)))
}

impl View for Layer {
    type V = JsonView;

    closed spec fn view(&self) -> JsonView {
        match self {
            Layer::Null => JsonView::Null,
            Layer::Bool(b) => JsonView::Bool(*b),
            Layer::Natural(n) => JsonView::Natural(*n),
            Layer::OtherNumber => JsonView::OtherNumber,
            Layer::Text(s) => JsonView::Text(s@),
            Layer::Array(a) => JsonView::Array(elements_hold(a@)),
            Layer::Object(m) => JsonView::Object(members_hold(m@)),
        }
    }
}

/// Moves what a `serde_json::Value` is made of out of it, one arm for each of
/// its variants: the result holds what the value holds. A number that
/// `serde_json::Number::as_u64` gives is natural, any other is not; the members
/// of an object come in the order of `serde_json::Map::into_iter`.
#[verifier::external_body]
fn take_apart(v: serde_json::Value) -> (r: Layer)
    ensures
        r@ == value_holds(v),
{
    match v {
        serde_json::Value::Null => Layer::Null,
        serde_json::Value::Bool(b) => Layer::Bool(b),
        serde_json::Value::Number(n) => match n.as_u64() {
            Some(u) => Layer::Natural(u),
            None => Layer::OtherNumber,
        },
        serde_json::Value::String(s) => Layer::Text(s),
        serde_json::Value::Array(a) => Layer::Array(a),
        serde_json::Value::Object(m) => Layer::Object(m.into_iter().collect()),
    }
}

/// No two members have the same key.
pub open spec fn keys_differ(m: Seq<(Seq<char>, JsonView)>) -> bool {
    forall|i: int, j: int| 0 <= i < j < m.len() ==> (#[trigger] m[i]).0 != (#[trigger] m[j]).0
}

/// A value that `serde_json` can hold as it is: its numbers are natural, and no
/// object has a key twice.
pub open spec fn writable(v: JsonView) -> bool
    decreases v,
{
    match v {
        JsonView::OtherNumber => false,
        JsonView::Array(a) => forall|i: int| 0 <= i < a.len() ==> writable(#[trigger] a[i]),
        JsonView::Object(m) => {
            &&& forall|i: int| 0 <= i < m.len() ==> writable((#[trigger] m[i]).1)
            &&& keys_differ(m)
        },
        _ => true,
    }
}

proof fn lemma_writable_element(a: Seq<JsonView>, i: int)
    requires
        writable(JsonView::Array(a)),
        0 <= i < a.len(),
    ensures
        writable(a[i]),
{
    let v = JsonView::Array(a);
    assert(v->Array_0[i] == a[i]);
}

/// How deep arrays and objects are nested, at most.
pub open spec fn nested_at_most(v: JsonView, n: nat) -> bool
    decreases v,
{
    match v {
        JsonView::Array(a) => n > 0 && forall|i: int|
            0 <= i < a.len() ==> nested_at_most(#[trigger] a[i], (n - 1) as nat),
        JsonView::Object(m) => n > 0 && forall|i: int|
            0 <= i < m.len() ==> nested_at_most((#[trigger] m[i]).1, (n - 1) as nat),
        _ => true,
    }
}

/// What is nested no deeper than `n` is nested no deeper than more.
pub proof fn lemma_nested_more(v: JsonView, n: nat, more: nat)
    requires
        nested_at_most(v, n),
        n <= more,
    ensures
        nested_at_most(v, more),
    decreases v,
{
    match v {
        JsonView::Array(a) => {
            assert forall|i: int| 0 <= i < a.len() implies nested_at_most(
                #[trigger] a[i],
                (more - 1) as nat,
            ) by {
                lemma_nested_more(a[i], (n - 1) as nat, (more - 1) as nat);
            }
        },
        JsonView::Object(m) => {
            assert forall|i: int| 0 <= i < m.len() implies nested_at_most(
                (#[trigger] m[i]).1,
                (more - 1) as nat,
            ) by {
                lemma_nested_more(m[i].1, (n - 1) as nat, (more - 1) as nat);
            }
        },
        _ => {},
    }
}

/// Makes a `serde_json::Value` of its parts, the variant of the same name for
/// each: it holds what the parts are. The members of an object, whose keys all
/// differ, are put into a `serde_json::Map`, which keeps their order.
#[verifier::external_body]
fn put_together(l: Layer) -> (r: serde_json::Value)
    requires
        !(l@ is OtherNumber),
        l@ is Object ==> keys_differ(l@->Object_0),
    ensures
        value_holds(r) == l@,
{
    match l {
        Layer::Null | Layer::OtherNumber => serde_json::Value::Null,
        Layer::Bool(b) => serde_json::Value::Bool(b),
        Layer::Natural(n) => serde_json::Value::from(n),
        Layer::Text(s) => serde_json::Value::String(s),
        Layer::Array(a) => serde_json::Value::Array(a),
        Layer::Object(m) => serde_json::Value::Object(m.into_iter().collect()),
    }
}

/// `serde_json::to_string`, for a value with natural numbers only: it succeeds,
/// and what it writes depends on the value alone. Where nothing is nested too
/// deeply to be read back, reading it gives the value again.
#[verifier::external_body]
fn write_compact(v: &serde_json::Value) -> (r: Result<String, serde_json::Error>)
    requires
        writable(value_holds(*v)),
    ensures
        r is Ok,
        r.unwrap()@ == json_compact(value_holds(*v)),
        nested_at_most(value_holds(*v), 100) ==> json_read(r.unwrap()@) == Some(value_holds(*v)),
{
    serde_json::to_string(v)
}

/// `serde_json::to_string_pretty`, for a value with natural numbers only: it
/// succeeds, and what it writes depends on the value alone. Where nothing is
/// nested too deeply to be read back, reading it gives the value again.
#[verifier::external_body]
fn write_pretty(v: &serde_json::Value) -> (r: Result<String, serde_json::Error>)
    requires
        writable(value_holds(*v)),
    ensures
        r is Ok,
        r.unwrap()@ == json_pretty(value_holds(*v)),
        nested_at_most(value_holds(*v), 100) ==> json_read(r.unwrap()@) == Some(value_holds(*v)),
{
    serde_json::to_string_pretty(v)
}

/// Takes a `serde_json::Value` apart, down to its leaves.
fn from_value(v: serde_json::Value) -> (r: Json)
    ensures
        r@ == value_holds(v),
    decreases value_holds(v),
{
    let ghost given = value_holds(v);
    match take_apart(v) {
        Layer::Null => Json::Null,
        Layer::Bool(b) => Json::Bool(b),
        Layer::Natural(n) => Json::Natural(n),
        Layer::OtherNumber => Json::OtherNumber,
        Layer::Text(s) => Json::Text(s),
        Layer::Array(a) => {
            let ghost all = elements_hold(a@);
            let mut rest: Vec<serde_json::Value> = a;
            let mut out: Vec<Json> = Vec::new();
            let ghost mut done: int = 0;
            assert(all.skip(0) == all);
            while rest.len() > 0
                invariant
                    0 <= done <= all.len(),
                    rest@.len() == all.len() - done,
                    elements_hold(rest@) == all.skip(done),
                    array_view(out@) == all.take(done),
                    given == value_holds(v),
                    given == JsonView::Array(all),
                decreases rest.len(),
            {
                let ghost waiting = rest@;
                let ghost before = out@;
                let x: serde_json::Value = rest.remove(0);
                proof {
                    assert(elements_hold(waiting)[0] == value_holds(x));
                    assert(all.skip(done)[0] == all[done]);
                    assert(decreases_to!(given => given->Array_0));
                    assert(decreases_to!(given->Array_0 => given->Array_0[done]));
                }
                let y: Json = from_value(x);
                out.push(y);
                proof {
                    assert(elements_hold(rest@) =~= all.skip(done + 1)) by {
                        assert forall|i: int| 0 <= i < rest@.len() implies #[trigger] elements_hold(
                            rest@,
                        )[i] == all.skip(done + 1)[i] by {
                            assert(elements_hold(waiting)[i + 1] == all.skip(done)[i + 1]);
                        }
                    }
                    assert(array_view(out@) =~= array_view(before).push(y@));
                    assert(all.take(done + 1) =~= all.take(done).push(all[done]));
                    done = done + 1;
                }
            }
            assert(all.take(done) == all);
            Json::Array(out)
        },
        Layer::Object(m) => {
            let ghost all = members_hold(m@);
            let mut rest: Vec<(String, serde_json::Value)> = m;
            let mut out: Vec<(String, Json)> = Vec::new();
            let ghost mut done: int = 0;
            assert(all.skip(0) == all);
            while rest.len() > 0
                invariant
                    0 <= done <= all.len(),
                    rest@.len() == all.len() - done,
                    members_hold(rest@) == all.skip(done),
                    object_view(out@) == all.take(done),
                    given == value_holds(v),
                    given == JsonView::Object(all),
                decreases rest.len(),
            {
                let ghost waiting = rest@;
                let ghost before = out@;
                let (key, x): (String, serde_json::Value) = rest.remove(0);
                proof {
                    assert(members_hold(waiting)[0] == (key@, value_holds(x)));
                    assert(all.skip(done)[0] == all[done]);
                    assert(decreases_to!(given => given->Object_0));
                    assert(decreases_to!(given->Object_0 => given->Object_0[done]));
                    assert(decreases_to!(given->Object_0[done] => given->Object_0[done].1));
                }
                let y: Json = from_value(x);
                let ghost member = (key, y);
                out.push((key, y));
                proof {
                    assert(members_hold(rest@) =~= all.skip(done + 1)) by {
                        assert forall|i: int| 0 <= i < rest@.len() implies #[trigger] members_hold(
                            rest@,
                        )[i] == all.skip(done + 1)[i] by {
                            assert(members_hold(waiting)[i + 1] == all.skip(done)[i + 1]);
                        }
                    }
                    assert(object_view(out@) =~= object_view(before).push((member.0@, member.1@)));
                    assert(all.take(done + 1) =~= all.take(done).push(all[done]));
                    done = done + 1;
                }
            }
            assert(all.take(done) == all);
            Json::Object(out)
        },
    }
}

/// Puts a `serde_json::Value` together, from its leaves up.
fn to_value(v: &Json) -> (r: serde_json::Value)
    requires
        writable(v@),
    ensures
        value_holds(r) == v@,
    decreases v@,
{
    match v {
        Json::Null => put_together(Layer::Null),
        Json::Bool(b) => put_together(Layer::Bool(*b)),
        Json::Natural(n) => put_together(Layer::Natural(*n)),
        Json::OtherNumber => put_together(Layer::Null),
        Json::Text(s) => put_together(Layer::Text(s.clone())),
        Json::Array(a) => {
            let ghost all = array_view(a@);
            let mut out: Vec<serde_json::Value> = Vec::new();
            let mut i: usize = 0;
            while i < a.len()
                invariant
                    i <= a.len(),
                    all.len() == a@.len(),
                    all == array_view(a@),
                    v@ == JsonView::Array(all),
                    writable(v@),
                    elements_hold(out@) == all.take(i as int),
                decreases a.len() - i,
            {
                let ghost before = out@;
                proof {
                    assert(all[i as int] == a@[i as int]@);
                    lemma_writable_element(all, i as int);
                    assert(decreases_to!(v@ => v@->Array_0));
                    assert(decreases_to!(v@->Array_0 => v@->Array_0[i as int]));
                }
                let x: serde_json::Value = to_value(&a[i]);
                out.push(x);
                proof {
                    assert(elements_hold(out@) =~= elements_hold(before).push(value_holds(x)));
                    assert(all.take(i + 1) =~= all.take(i as int).push(all[i as int]));
                }
                i = i + 1;
            }
            assert(all.take(i as int) == all);
            put_together(Layer::Array(out))
        },
        Json::Object(m) => {
            let ghost all = object_view(m@);
            let mut out: Vec<(String, serde_json::Value)> = Vec::new();
            let mut i: usize = 0;
            while i < m.len()
                invariant
                    i <= m.len(),
                    all == object_view(m@),
                    v@ == JsonView::Object(all),
                    writable(v@),
                    members_hold(out@) == all.take(i as int),
                decreases m.len() - i,
            {
                let ghost before = out@;
                proof {
                    assert(all[i as int] == (m@[i as int].0@, m@[i as int].1@));
                    assert(writable(JsonView::Object(all)) ==> writable(all[i as int].1));
                    assert(decreases_to!(v@ => v@->Object_0));
                    assert(decreases_to!(v@->Object_0 => v@->Object_0[i as int]));
                    assert(decreases_to!(v@->Object_0[i as int] => v@->Object_0[i as int].1));
                }
                let x: serde_json::Value = to_value(&m[i].1);
                let key: String = m[i].0.clone();
                let ghost member = (key@, value_holds(x));
                out.push((key, x));
                proof {
                    assert(members_hold(out@) =~= members_hold(before).push(member));
                    assert(all.take(i + 1) =~= all.take(i as int).push(all[i as int]));
                }
                i = i + 1;
            }
            assert(all.take(i as int) == all);
            put_together(Layer::Object(out))
        },
    }
}

/// Reads a JSON document, or says why the text is none.
pub fn read(s: &str) -> (r: Result<Json, serde_json::Error>)
    ensures
        match r {
            Ok(v) => json_read(s@) == Some(v@),
            Err(_) => json_read(s@) is None,
        },
{
    match read_value(s) {
        Ok(v) => Ok(from_value(v)),
        Err(e) => Err(e),
    }
}

/// Reads a JSON document; `None` where the text is none.
pub fn parse(s: &str) -> (r: Option<Json>)
    ensures
        text::opt_view(r) == json_read(s@),
{
    match read(s) {
        Ok(v) => Some(v),
        Err(_) => None,
    }
}

/// The member of an object under a key; `Null` where there is none.
pub open spec fn member(v: JsonView, key: Seq<char>) -> JsonView {
    match v {
        JsonView::Object(m) => member_in(m, key),
        _ => JsonView::Null,
    }
}

pub open spec fn member_in(m: Seq<(Seq<char>, JsonView)>, key: Seq<char>) -> JsonView
    decreases m.len(),
{
    if m.len() == 0 {
        JsonView::Null
    } else if m[0].0 == key {
        m[0].1
    } else {
        member_in(m.drop_first(), key)
    }
}

/// An object has a member under a key.
pub open spec fn has_member(v: JsonView, key: Seq<char>) -> bool {
    match v {
        JsonView::Object(m) => exists|i: int| 0 <= i < m.len() && (#[trigger] m[i]).0 == key,
        _ => false,
    }
}

/// Where no two keys are equal, each member is found under its key.
pub proof fn lemma_member(m: Seq<(Seq<char>, JsonView)>, i: int)
    requires
        keys_differ(m),
        0 <= i < m.len(),
    ensures
        member_in(m, m[i].0) == m[i].1,
    decreases m.len(),
{
    if i > 0 {
        let rest = m.drop_first();
        assert(m[0].0 != m[i].0);
        assert forall|a: int, b: int| 0 <= a < b < rest.len() implies (#[trigger] rest[a]).0 != (
        #[trigger] rest[b]).0 by {
            assert(m[a + 1].0 != m[b + 1].0);
        }
        lemma_member(rest, i - 1);
        assert(rest[i - 1] == m[i]);
    }
}

/// The element of an array at a position; `Null` where there is none.
pub open spec fn element(v: JsonView, i: int) -> JsonView {
    match v {
        JsonView::Array(a) => if 0 <= i < a.len() {
            a[i]
        } else {
            JsonView::Null
        },
        _ => JsonView::Null,
    }
}

/// The text that a value is.
pub open spec fn text_of(v: JsonView) -> Option<Seq<char>> {
    match v {
        JsonView::Text(s) => Some(s),
        _ => None,
    }
}

/// The text that a value is; the given one where it is none.
pub open spec fn text_or(v: JsonView, default: Seq<char>) -> Seq<char> {
    match v {
        JsonView::Text(s) => s,
        _ => default,
    }
}

/// The natural number that a value is.
pub open spec fn natural_of(v: JsonView) -> Option<u64> {
    match v {
        JsonView::Natural(n) => Some(n),
        _ => None,
    }
}

/// The elements of a value that is an array.
pub open spec fn array_of(v: JsonView) -> Option<Seq<JsonView>> {
    match v {
        JsonView::Array(a) => Some(a),
        _ => None,
    }
}

/// The value, `Null` where there is none.
pub open spec fn or_null(v: Option<&Json>) -> JsonView {
    match v {
        Some(j) => j@,
        None => JsonView::Null,
    }
}

impl Json {
    /// The member of an object under a key.
    pub fn get(&self, key: &str) -> (r: Option<&Json>)
        ensures
            or_null(r) == member(self@, key@),
            r is Some == has_member(self@, key@),
    {
        match self {
            Json::Object(m) => {
                let ghost all = self@->Object_0;
                let mut i: usize = 0;
                assert(all.skip(0) == all);
                while i < m.len()
                    invariant
                        i <= m.len(),
                        *self == Json::Object(*m),
                        self@ == JsonView::Object(all),
                        all.len() == m@.len(),
                        forall|k: int|
                            0 <= k < m@.len() ==> #[trigger] all[k] == (m@[k].0@, m@[k].1@),
                        member_in(all, key@) == member_in(all.skip(i as int), key@),
                        forall|k: int| 0 <= k < i ==> (#[trigger] all[k]).0 != key@,
                    decreases m.len() - i,
                {
                    assert(all.skip(i as int)[0] == all[i as int]);
                    if text::str_same(m[i].0.as_str(), key) {
                        assert(all[i as int].0 == key@);
                        return Some(&m[i].1);
                    }
                    assert(all.skip(i as int).drop_first() == all.skip(i + 1));
                    i = i + 1;
                }
                None
            },
            _ => None,
        }
    }

    /// The element of an array at a position.
    pub fn at(&self, i: usize) -> (r: Option<&Json>)
        ensures
            or_null(r) == element(self@, i as int),
    {
        match self {
            Json::Array(a) => if i < a.len() {
                Some(&a[i])
            } else {
                None
            },
            _ => None,
        }
    }

    /// The text that the value is.
    pub fn as_text(&self) -> (r: Option<&String>)
        ensures
            match r {
                Some(s) => text_of(self@) == Some(s@),
                None => text_of(self@) is None,
            },
    {
        match self {
            Json::Text(s) => Some(s),
            _ => None,
        }
    }

    /// The natural number that the value is.
    pub fn as_natural(&self) -> (r: Option<u64>)
        ensures
            r == natural_of(self@),
    {
        match self {
            Json::Natural(n) => Some(*n),
            _ => None,
        }
    }

    /// The elements of a value that is an array.
    pub fn as_array(&self) -> (r: Option<&Vec<Json>>)
        ensures
            match r {
                Some(a) => array_of(self@) == Some(text::views(a@)),
                None => array_of(self@) is None,
            },
    {
        match self {
            Json::Array(a) => {
                proof { lemma_array_view(a@); }
                Some(a)
            },
            _ => None,
        }
    }

    /// Writes the value on one line.
    pub fn compact(&self) -> (r: String)
        requires
            writable(self@),
        ensures
            r@ == json_compact(self@),
            nested_at_most(self@, 100) ==> json_read(r@) == Some(self@),
    {
        match write_compact(&to_value(self)) {
            Ok(s) => s,
            Err(_) => String::new(),
        }
    }

    /// Writes the value on many lines, indented.
    pub fn pretty(&self) -> (r: Result<String, serde_json::Error>)
        requires
            writable(self@),
        ensures
            r is Ok,
            r.unwrap()@ == json_pretty(self@),
            nested_at_most(self@, 100) ==> json_read(r.unwrap()@) == Some(self@),
    {
        write_pretty(&to_value(self))
    }
}

/// The text under a key of an object, `default` where there is none.
pub fn member_text(v: &Json, key: &str, default: &str) -> (r: String)
    ensures
        r@ == text_or(member(v@, key@), default@),
{
    match v.get(key) {
        Some(m) => match m.as_text() {
            Some(s) => s.clone(),
            None => default.to_string(),
        },
        None => default.to_string(),
    }
}

/// The natural number under a key of an object.
pub fn member_natural(v: &Json, key: &str) -> (r: Option<u64>)
    ensures
        r == natural_of(member(v@, key@)),
{
    match v.get(key) {
        Some(m) => m.as_natural(),
        None => None,
    }
}

/// The array under a key of an object.
pub fn member_array<'a>(v: &'a Json, key: &str) -> (r: Option<&'a Vec<Json>>)
    ensures
        match r {
            Some(a) => array_of(member(v@, key@)) == Some(text::views(a@)),
            None => array_of(member(v@, key@)) is None,
        },
{
    match v.get(key) {
        Some(m) => m.as_array(),
        None => None,
    }
}

/// A member of an object is what the first entry under its key holds; where there
/// is none, and of what is no object, it is null.
pub proof fn law_member(m: Seq<(Seq<char>, JsonView)>, key: Seq<char>, i: int)
    requires
        0 <= i <= m.len(),
        forall|j: int| 0 <= j < i ==> (#[trigger] m[j]).0 != key,
        i < m.len() ==> m[i].0 == key,
    ensures
        member(JsonView::Object(m), key) == if i < m.len() {
            m[i].1
        } else {
            JsonView::Null
        },
        member(JsonView::Array(Seq::empty()), key) == JsonView::Null,
    decreases i,
{
    if i > 0 {
        let rest = m.drop_first();
        assert forall|j: int| 0 <= j < i - 1 implies (#[trigger] rest[j]).0 != key by {
            assert(m[j + 1].0 != key);
        }
        assert(m[0].0 != key);
        law_member(rest, key, i - 1);
    }
}

} // verus!
