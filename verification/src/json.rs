//! JSON documents: read and written by `serde_json`, looked into here.

use serde_json::{Number, Value};
use vstd::prelude::*;

use crate::text::same;

verus! {

broadcast use vstd::string::group_string_axioms;

/// `serde_json::Number`, carried through unread.
#[verifier::external_type_specification]
#[verifier::external_body]
pub struct ExNumber(Number);

/// `serde_json::Value`, a document between its text and [`Json`].
#[verifier::external_type_specification]
#[verifier::external_body]
pub struct ExValue(Value);

/// A JSON document.
#[derive(Debug)]
pub enum Json {
    Null,
    Bool(bool),
    /// A number: as an integer where it is one that fits, and as it was read.
    Num(Option<i64>, Number),
    Str(String),
    Arr(Vec<Json>),
    /// The members in the order in which they are kept.
    Obj(Vec<(String, Json)>),
}

/// A JSON document, mathematically.
pub enum Doc {
    Null,
    Bool(bool),
    Num(Option<i64>, Number),
    Str(Seq<char>),
    Arr(Seq<Doc>),
    Obj(Seq<(Seq<char>, Doc)>),
}

/// The elements of an array.
pub open spec fn docs(s: Seq<Json>) -> Seq<Doc>
    decreases s,
{
    if s.len() == 0 {
        Seq::empty()
    } else {
        docs(s.drop_last()).push(doc(s.last()))
    }
}

/// The members of an object.
pub open spec fn members(s: Seq<(String, Json)>) -> Seq<(Seq<char>, Doc)>
    decreases s,
{
    if s.len() == 0 {
        Seq::empty()
    } else {
        members(s.drop_last()).push((s.last().0@, doc(s.last().1)))
    }
}

/// What a document says.
pub open spec fn doc(j: Json) -> Doc
    decreases j,
{
    match j {
        Json::Null => Doc::Null,
        Json::Bool(b) => Doc::Bool(b),
        Json::Num(i, n) => Doc::Num(i, n),
        Json::Str(s) => Doc::Str(s@),
        Json::Arr(a) => Doc::Arr(docs(a@)),
        Json::Obj(m) => Doc::Obj(members(m@)),
    }
}

impl View for Json {
    type V = Doc;

    open spec fn view(&self) -> Doc {
        doc(*self)
    }
}

/// The value of the first member with this name.
pub open spec fn first_member(m: Seq<(Seq<char>, Doc)>, name: Seq<char>) -> Option<Doc>
    decreases m.len(),
{
    if m.len() == 0 {
        None
    } else if m[0].0 == name {
        Some(m[0].1)
    } else {
        first_member(m.drop_first(), name)
    }
}

/// The member of an object with this name.
pub open spec fn member(d: Doc, name: Seq<char>) -> Option<Doc> {
    match d {
        Doc::Obj(m) => first_member(m, name),
        _ => None,
    }
}

/// The text of a string.
pub open spec fn text_of(d: Option<Doc>) -> Option<Seq<char>> {
    match d {
        Some(Doc::Str(s)) => Some(s),
        _ => None,
    }
}

/// The truth value, where it is one.
pub open spec fn flag_of(d: Option<Doc>) -> Option<bool> {
    match d {
        Some(Doc::Bool(b)) => Some(b),
        _ => None,
    }
}

/// The integer, where it is one that fits.
pub open spec fn int_of(d: Option<Doc>) -> Option<i64> {
    match d {
        Some(Doc::Num(i, _)) => i,
        _ => None,
    }
}

/// The elements, where it is an array.
pub open spec fn items_of(d: Option<Doc>) -> Option<Seq<Doc>> {
    match d {
        Some(Doc::Arr(a)) => Some(a),
        _ => None,
    }
}

/// The member of a member.
pub open spec fn inner(d: Doc, outer: Seq<char>, name: Seq<char>) -> Option<Doc> {
    match member(d, outer) {
        Some(o) => member(o, name),
        None => None,
    }
}

pub proof fn lemma_docs(s: Seq<Json>)
    ensures
        docs(s).len() == s.len(),
        forall|i: int| 0 <= i < s.len() ==> #[trigger] docs(s)[i] == doc(s[i]),
    decreases s.len(),
{
    if s.len() > 0 {
        lemma_docs(s.drop_last());
        assert forall|i: int| 0 <= i < s.len() implies #[trigger] docs(s)[i] == doc(s[i]) by {
            if i < s.len() - 1 {
                assert(docs(s.drop_last())[i] == doc(s.drop_last()[i]));
            }
        }
    }
}

pub proof fn lemma_members(s: Seq<(String, Json)>)
    ensures
        members(s).len() == s.len(),
        forall|i: int|
            0 <= i < s.len() ==> #[trigger] members(s)[i] == (s[i].0@, doc(s[i].1)),
    decreases s.len(),
{
    if s.len() > 0 {
        lemma_members(s.drop_last());
        assert forall|i: int| 0 <= i < s.len() implies #[trigger] members(s)[i] == (
            s[i].0@,
            doc(s[i].1),
        ) by {
            if i < s.len() - 1 {
                assert(members(s.drop_last())[i] == (
                    s.drop_last()[i].0@,
                    doc(s.drop_last()[i].1),
                ));
            }
        }
    }
}

/// The document is an object whose first member of this name has this value.
pub open spec fn holds(d: Doc, name: Seq<char>, v: Doc) -> bool {
    d matches Doc::Obj(m) && exists|i: int|
        0 <= i < m.len() && #[trigger] m[i] == (name, v) && forall|k: int|
            0 <= k < i ==> (#[trigger] m[k]).0 != name
}

/// A member is what an object holds under its name.
pub proof fn lemma_member(d: Doc, name: Seq<char>, v: Doc)
    ensures
        member(d, name) == Some(v) <==> holds(d, name, v),
{
    match d {
        Doc::Obj(m) => {
            lemma_first_member(m, name, v);
        },
        _ => {},
    }
}

proof fn lemma_first_member(m: Seq<(Seq<char>, Doc)>, name: Seq<char>, v: Doc)
    ensures
        first_member(m, name) == Some(v) <==> exists|i: int|
            0 <= i < m.len() && #[trigger] m[i] == (name, v) && forall|k: int|
                0 <= k < i ==> (#[trigger] m[k]).0 != name,
    decreases m.len(),
{
    if m.len() > 0 {
        let rest = m.drop_first();
        lemma_first_member(rest, name, v);
        if m[0].0 != name {
            if first_member(rest, name) == Some(v) {
                let i = choose|i: int|
                    0 <= i < rest.len() && #[trigger] rest[i] == (name, v) && forall|k: int|
                        0 <= k < i ==> (#[trigger] rest[k]).0 != name;
                assert(m[i + 1] == (name, v));
                assert forall|k: int| 0 <= k < i + 1 implies (#[trigger] m[k]).0 != name by {
                    if k > 0 {
                        assert(rest[k - 1].0 != name);
                    }
                }
            }
            if exists|i: int|
                0 <= i < m.len() && #[trigger] m[i] == (name, v) && forall|k: int|
                    0 <= k < i ==> (#[trigger] m[k]).0 != name {
                let i = choose|i: int|
                    0 <= i < m.len() && #[trigger] m[i] == (name, v) && forall|k: int|
                        0 <= k < i ==> (#[trigger] m[k]).0 != name;
                assert(rest[i - 1] == (name, v));
                assert forall|k: int| 0 <= k < i - 1 implies (#[trigger] rest[k]).0 != name by {
                    assert(m[k + 1].0 != name);
                }
            }
        } else {
            if m[0].1 == v {
                assert(m[0] == (name, v));
            }
        }
    }
}

/// What an object holds under a name is one thing.
pub proof fn lemma_holds_one(d: Doc, name: Seq<char>, a: Doc, b: Doc)
    requires
        holds(d, name, a),
        holds(d, name, b),
    ensures
        a == b,
{
    lemma_member(d, name, a);
    lemma_member(d, name, b);
}

/// The document that a `serde_json::Value` holds.
pub uninterp spec fn json_tree(v: Value) -> Doc;

/// What `serde_json::from_str` makes of a text: a document, or the text of its error.
pub uninterp spec fn json_parsed(text: Seq<char>) -> Result<Doc, Seq<char>>;

/// What `serde_json::from_slice` makes of bytes: a document, or the text of its error.
pub uninterp spec fn json_read(bytes: Seq<u8>) -> Result<Doc, Seq<char>>;

/// The `serde_json::Value` with the members and elements of a document.
pub uninterp spec fn json_value(d: Doc) -> Value;

/// What `serde_json::to_string` writes: a text, or the text of its error.
pub uninterp spec fn json_written(v: Value) -> Result<Seq<char>, Seq<char>>;

/// A result with its texts as sequences of characters.
pub open spec fn text_result(r: Result<String, String>) -> Result<Seq<char>, Seq<char>> {
    match r {
        Ok(s) => Ok(s@),
        Err(e) => Err(e@),
    }
}

/// A result with its document and its text as what they say.
pub open spec fn doc_result(r: Result<Json, String>) -> Result<Doc, Seq<char>> {
    match r {
        Ok(j) => Ok(j@),
        Err(e) => Err(e@),
    }
}

/// `serde_json::from_str` into a `Value`, under the name [`json_parsed`].
#[verifier::external_body]
fn value_from_str(text: &str) -> (r: Result<Value, String>)
    ensures
        json_parsed(text@) == (match r {
            Ok(v) => Ok::<Doc, Seq<char>>(json_tree(v)),
            Err(e) => Err(e@),
        }),
{
    serde_json::from_str::<Value>(text).map_err(|e| e.to_string())
}

/// `serde_json::from_slice` into a `Value`, under the name [`json_read`].
#[verifier::external_body]
fn value_from_slice(bytes: &[u8]) -> (r: Result<Value, String>)
    ensures
        json_read(bytes@) == (match r {
            Ok(v) => Ok::<Doc, Seq<char>>(json_tree(v)),
            Err(e) => Err(e@),
        }),
{
    serde_json::from_slice::<Value>(bytes).map_err(|e| e.to_string())
}

/// The variants of `serde_json::Value` one for one, with `Number::as_i64` beside each
/// number and the entries of each `Map` in its own order.
#[verifier::external_body]
fn from_value(v: Value) -> (r: Json)
    ensures
        r@ == json_tree(v),
{
    match v {
        Value::Null => Json::Null,
        Value::Bool(b) => Json::Bool(b),
        Value::Number(n) => Json::Num(n.as_i64(), n),
        Value::String(s) => Json::Str(s),
        Value::Array(a) => Json::Arr(a.into_iter().map(from_value).collect()),
        Value::Object(m) => Json::Obj(m.into_iter().map(|(k, v)| (k, from_value(v))).collect()),
    }
}

/// The variants of [`Json`] one for one, under the name [`json_value`].
#[verifier::external_body]
fn to_value(j: &Json) -> (v: Value)
    ensures
        v == json_value(j@),
{
    match j {
        Json::Null => Value::Null,
        Json::Bool(b) => Value::Bool(*b),
        Json::Num(_, n) => Value::Number(n.clone()),
        Json::Str(s) => Value::String(s.clone()),
        Json::Arr(a) => Value::Array(a.iter().map(to_value).collect()),
        Json::Obj(m) => Value::Object(m.iter().map(|(k, v)| (k.clone(), to_value(v))).collect()),
    }
}

/// `serde_json::to_string` of a `Value`, under the name [`json_written`].
#[verifier::external_body]
fn value_to_string(v: &Value) -> (r: Result<String, String>)
    ensures
        text_result(r) == json_written(*v),
{
    serde_json::to_string(v).map_err(|e| e.to_string())
}

/// Reads a text.
pub fn parse(text: &str) -> (r: Result<Json, String>)
    ensures
        doc_result(r) == json_parsed(text@),
{
    match value_from_str(text) {
        Ok(v) => Ok(from_value(v)),
        Err(e) => Err(e),
    }
}

/// Reads bytes.
pub fn parse_bytes(bytes: &[u8]) -> (r: Result<Json, String>)
    ensures
        doc_result(r) == json_read(bytes@),
{
    match value_from_slice(bytes) {
        Ok(v) => Ok(from_value(v)),
        Err(e) => Err(e),
    }
}

/// Writes a document.
pub fn render(j: &Json) -> (r: Result<String, String>)
    ensures
        text_result(r) == json_written(json_value(j@)),
{
    let v = to_value(j);
    value_to_string(&v)
}

impl Json {
    /// The member with this name.
    pub fn get(&self, name: &str) -> (r: Option<&Json>)
        ensures
            match r {
                Some(j) => member(self@, name@) == Some(j@),
                None => member(self@, name@) is None,
            },
    {
        match self {
            Json::Obj(m) => {
                let ghost ms = members(m@);
                proof {
                    lemma_members(m@);
                    assert(ms.skip(0) =~= ms);
                }
                let mut i: usize = 0;
                while i < m.len()
                    invariant
                        i <= m@.len(),
                        ms == members(m@),
                        self@ == Doc::Obj(ms),
                        ms.len() == m@.len(),
                        forall|k: int|
                            0 <= k < ms.len() ==> #[trigger] ms[k] == (m@[k].0@, doc(m@[k].1)),
                        first_member(ms, name@) == first_member(ms.skip(i as int), name@),
                    decreases m@.len() - i,
                {
                    proof {
                        assert(ms.skip(i as int)[0] == ms[i as int]);
                        assert(ms.skip(i as int).drop_first() =~= ms.skip(i + 1));
                    }
                    if same(m[i].0.as_str(), name) {
                        return Some(&m[i].1);
                    }
                    i += 1;
                }
                None
            },
            _ => None,
        }
    }

    pub fn as_str(&self) -> (r: Option<&str>)
        ensures
            match r {
                Some(s) => text_of(Some(self@)) == Some(s@),
                None => text_of(Some(self@)) is None,
            },
    {
        match self {
            Json::Str(s) => Some(s.as_str()),
            _ => None,
        }
    }

    pub fn as_bool(&self) -> (r: Option<bool>)
        ensures
            r == flag_of(Some(self@)),
    {
        match self {
            Json::Bool(b) => Some(*b),
            _ => None,
        }
    }

    pub fn as_i64(&self) -> (r: Option<i64>)
        ensures
            r == int_of(Some(self@)),
    {
        match self {
            Json::Num(i, _) => *i,
            _ => None,
        }
    }

    pub fn as_array(&self) -> (r: Option<&[Json]>)
        ensures
            match r {
                Some(a) => items_of(Some(self@)) == Some(docs(a@)),
                None => items_of(Some(self@)) is None,
            },
    {
        match self {
            Json::Arr(a) => Some(a.as_slice()),
            _ => None,
        }
    }

    /// The text of the member with this name.
    pub fn text(&self, name: &str) -> (r: Option<String>)
        ensures
            match r {
                Some(s) => text_of(member(self@, name@)) == Some(s@),
                None => text_of(member(self@, name@)) is None,
            },
    {
        match self.get(name) {
            Some(j) => match j.as_str() {
                Some(s) => Some(s.to_owned()),
                None => None,
            },
            None => None,
        }
    }

    /// The text of a member of a member.
    pub fn inner_text(&self, outer: &str, name: &str) -> (r: Option<String>)
        ensures
            match r {
                Some(s) => text_of(inner(self@, outer@, name@)) == Some(s@),
                None => text_of(inner(self@, outer@, name@)) is None,
            },
    {
        match self.get(outer) {
            Some(o) => o.text(name),
            None => None,
        }
    }
}

} // verus!
