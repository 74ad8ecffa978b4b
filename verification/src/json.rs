//! JSON values as trees of plain data, and their exchange with `serde_json`.

use crate::model::{views, Duplicate};
use crate::text::same_text;
use serde_json::Value;
use vstd::prelude::*;

verus! {

/// The value type of `serde_json`, opaque here.
#[verifier::external_type_specification]
#[verifier::external_body]
pub struct ExValue(Value);

/// The number type of `serde_json`, opaque here.
#[verifier::external_type_specification]
#[verifier::external_body]
pub struct ExNumber(serde_json::Number);

/// The error type of `serde_json`, opaque here.
#[verifier::external_type_specification]
#[verifier::external_body]
pub struct ExError(serde_json::Error);

/// `clone` of a `serde_json` number gives the same number.
pub assume_specification[ <serde_json::Number as Clone>::clone ](
    n: &serde_json::Number,
) -> (r: serde_json::Number)
    ensures
        r == *n,
;

/// A number that is not an integer of 64 bits, carried as `serde_json` holds it.
#[derive(Debug)]
pub struct Fraction {
    number: serde_json::Number,
}

impl Clone for Fraction {
    fn clone(&self) -> (r: Self)
        ensures
            r == *self,
    {
        Fraction { number: self.number.clone() }
    }
}

/// A JSON value. Of two members with one key, the later counts.
#[derive(Debug)]
pub enum Json {
    Null,
    Bool(bool),
    Unsigned(u64),
    Signed(i64),
    Fraction(Fraction),
    Text(String),
    Array(Vec<Json>),
    Object(Vec<(String, Json)>),
}

/// What a JSON value says: integers by their value, objects as maps.
#[verifier::ext_equal]
pub enum JsonView {
    Null,
    Bool(bool),
    Int(int),
    Fraction(Fraction),
    Text(Seq<char>),
    Array(Seq<JsonView>),
    Object(Map<Seq<char>, JsonView>),
}

/// The value that a tree stands for.
pub open spec fn tree(j: Json) -> JsonView
    decreases j,
{
    match j {
        Json::Null => JsonView::Null,
        Json::Bool(b) => JsonView::Bool(b),
        Json::Unsigned(n) => JsonView::Int(n as int),
        Json::Signed(n) => JsonView::Int(n as int),
        Json::Fraction(f) => JsonView::Fraction(f),
        Json::Text(s) => JsonView::Text(s@),
        Json::Array(v) => JsonView::Array(trees(v@)),
        Json::Object(p) => JsonView::Object(members(p@)),
    }
}

/// The values of a sequence of trees.
pub open spec fn trees(s: Seq<Json>) -> Seq<JsonView>
    decreases s,
{
    if s.len() == 0 {
        Seq::empty()
    } else {
        trees(s.drop_last()).push(tree(s.last()))
    }
}

/// The values of a sequence of trees, one by one.
pub proof fn lemma_trees(s: Seq<Json>)
    ensures
        trees(s) == views(s),
    decreases s.len(),
{
    if s.len() > 0 {
        lemma_trees(s.drop_last());
    }
    assert(trees(s) =~= views(s));
}

/// The map that a sequence of members stands for.
pub open spec fn members(s: Seq<(String, Json)>) -> Map<Seq<char>, JsonView>
    decreases s,
{
    if s.len() == 0 {
        Map::empty()
    } else {
        members(s.drop_last()).insert(s.last().0@, tree(s.last().1))
    }
}

impl View for Json {
    type V = JsonView;

    open spec fn view(&self) -> JsonView {
        tree(*self)
    }
}

/// The tree that a value of `serde_json` holds.
pub uninterp spec fn value_tree(v: Value) -> JsonView;

/// The compact text of a value.
pub uninterp spec fn json_text(v: JsonView) -> Seq<char>;

/// The value of a text, if it is JSON.
pub uninterp spec fn json_parsed(s: Seq<char>) -> Option<JsonView>;

/// Builds the value of `serde_json` that holds the same tree. The members of an object are handed
/// to `serde_json::Map::insert` one by one, in order: it puts a member in place of an earlier one
/// under the same key, as the tree has it.
#[verifier::external_body]
pub(crate) fn to_value(j: &Json) -> (r: Value)
    ensures
        value_tree(r) == j@,
{
    match j {
        Json::Null => Value::Null,
        Json::Bool(b) => Value::from(*b),
        Json::Unsigned(n) => Value::from(*n),
        Json::Signed(n) => Value::from(*n),
        Json::Fraction(f) => Value::Number(f.number.clone()),
        Json::Text(s) => Value::from(s.as_str()),
        Json::Array(v) => Value::Array(v.iter().map(to_value).collect()),
        Json::Object(p) => {
            let mut members = serde_json::Map::new();
            for (k, v) in p.iter() { members.insert(k.clone(), to_value(v)); }
            Value::Object(members)
        },
    }
}

/// Reads the tree out of a value of `serde_json`.
#[verifier::external_body]
pub(crate) fn from_value(v: &Value) -> (r: Json)
    ensures
        r@ == value_tree(*v),
{
    match v {
        Value::Null => Json::Null,
        Value::Bool(b) => Json::Bool(*b),
        Value::Number(n) => match (n.as_u64(), n.as_i64()) {
            (Some(u), _) => Json::Unsigned(u),
            (None, Some(i)) => Json::Signed(i),
            (None, None) => Json::Fraction(Fraction { number: n.clone() }),
        },
        Value::String(s) => Json::Text(s.clone()),
        Value::Array(a) => Json::Array(a.iter().map(from_value).collect()),
        Value::Object(m) => Json::Object(
            m.iter().map(|(k, w)| (k.clone(), from_value(w))).collect(),
        ),
    }
}

/// `serde_json::to_string` on a value: the compact text, which depends on the tree alone. The
/// values of `serde_json` have text keys only, so the call does not fail.
#[verifier::external_body]
fn value_text(v: &Value) -> (r: String)
    ensures
        r@ == json_text(value_tree(*v)),
{
    serde_json::to_string(v).unwrap_or_default()
}

/// `serde_json::from_str` to a value: it depends on the text alone whether the text is read,
/// and as which tree.
#[verifier::external_body]
fn text_value(text: &str) -> (r: Result<Value, serde_json::Error>)
    ensures
        match r {
            Ok(v) => json_parsed(text@) == Some(value_tree(v)),
            Err(_) => json_parsed(text@) is None,
        },
{
    serde_json::from_str(text)
}

impl Clone for Json {
    fn clone(&self) -> (r: Self)
        ensures
            r@ == self@,
        decreases self,
    {
        match self {
            Json::Null => Json::Null,
            Json::Bool(b) => Json::Bool(*b),
            Json::Unsigned(n) => Json::Unsigned(*n),
            Json::Signed(n) => Json::Signed(*n),
            Json::Fraction(f) => Json::Fraction(f.clone()),
            Json::Text(s) => Json::Text(s.clone()),
            Json::Array(v) => {
                let mut w: Vec<Json> = Vec::new();
                let mut i: usize = 0;
                while i < v.len()
                    invariant
                        i <= v@.len(),
                        *self == Json::Array(*v),
                        trees(w@) == trees(v@.take(i as int)),
                    decreases v@.len() - i,
                {
                    assert(v@.take(i + 1).drop_last() =~= v@.take(i as int));
                    assert(decreases_to!(self => self->Array_0));
                    assert(decreases_to!(v => v@));
                    assert(decreases_to!(v@ => v@[i as int]));
                    let item: Json = v[i].clone();
                    let ghost before = w@;
                    w.push(item);
                    assert(w@.drop_last() =~= before);
                    i = i + 1;
                }
                assert(v@.take(i as int) =~= v@);
                Json::Array(w)
            },
            Json::Object(p) => {
                let mut q: Vec<(String, Json)> = Vec::new();
                let mut i: usize = 0;
                while i < p.len()
                    invariant
                        i <= p@.len(),
                        *self == Json::Object(*p),
                        members(q@) == members(p@.take(i as int)),
                    decreases p@.len() - i,
                {
                    assert(p@.take(i + 1).drop_last() =~= p@.take(i as int));
                    assert(decreases_to!(self => self->Object_0));
                    assert(decreases_to!(p => p@));
                    assert(decreases_to!(p@ => p@[i as int]));
                    assert(decreases_to!(p@[i as int] => p@[i as int].1));
                    let item: Json = p[i].1.clone();
                    let ghost before = q@;
                    q.push((p[i].0.clone(), item));
                    assert(q@.drop_last() =~= before);
                    i = i + 1;
                }
                assert(p@.take(i as int) =~= p@);
                Json::Object(q)
            },
        }
    }
}

/// The member of an object under a key.
pub open spec fn member(v: JsonView, key: Seq<char>) -> Option<JsonView> {
    match v {
        JsonView::Object(m) if m.dom().contains(key) => Some(m[key]),
        _ => None,
    }
}

/// An integer that fits in `i64`.
pub open spec fn integer(v: Option<JsonView>) -> Option<int> {
    match v {
        Some(JsonView::Int(n)) if i64::MIN <= n <= i64::MAX => Some(n),
        _ => None,
    }
}

/// A text.
pub open spec fn text(v: Option<JsonView>) -> Option<Seq<char>> {
    match v {
        Some(JsonView::Text(s)) => Some(s),
        _ => None,
    }
}

/// The last member under a key.
pub fn find_member<'a>(p: &'a Vec<(String, Json)>, key: &str) -> (r: Option<&'a Json>)
    ensures
        match r {
            Some(j) => members(p@).dom().contains(key@) && members(p@)[key@] == j@,
            None => !members(p@).dom().contains(key@),
        },
{
    let mut i: usize = p.len();
    assert(p@.take(i as int) =~= p@);
    while i > 0
        invariant
            i <= p@.len(),
            members(p@).dom().contains(key@) == members(p@.take(i as int)).dom().contains(key@),
            members(p@).dom().contains(key@) ==> members(p@)[key@] == members(
                p@.take(i as int),
            )[key@],
        decreases i,
    {
        i = i - 1;
        assert(p@.take(i + 1).drop_last() =~= p@.take(i as int));
        if same_text(p[i].0.as_str(), key) {
            return Some(&p[i].1);
        }
    }
    None
}

impl Json {
    /// The tree of a value of `serde_json`.
    pub fn of_value(v: &Value) -> (r: Json)
        ensures
            r@ == value_tree(*v),
    {
        from_value(v)
    }

    /// The value of `serde_json` with this tree.
    pub fn to_value(&self) -> (r: Value)
        ensures
            value_tree(r) == self@,
    {
        to_value(self)
    }

    /// Reads a text.
    pub fn parse(text: &str) -> (r: Option<Json>)
        ensures
            match r {
                Some(j) => json_parsed(text@) == Some(j@),
                None => json_parsed(text@) is None,
            },
    {
        match text_value(text) {
            Ok(v) => Some(from_value(&v)),
            Err(_) => None,
        }
    }

    /// The compact text.
    pub fn print(&self) -> (r: String)
        ensures
            r@ == json_text(self@),
    {
        value_text(&to_value(self))
    }

    /// A text as a value.
    pub fn text(s: &str) -> (r: Json)
        ensures
            r@ == JsonView::Text(s@),
    {
        Json::Text(s.to_owned())
    }

    /// The object without members.
    pub fn object() -> (r: Json)
        ensures
            r@ == JsonView::Object(Map::empty()),
    {
        Json::Object(Vec::new())
    }

    /// The object with one more member, in place of an earlier one under the same key.
    pub fn with(self, key: &str, value: Json) -> (r: Json)
        requires
            self@ is Object,
        ensures
            r@ == JsonView::Object(self@->Object_0.insert(key@, value@)),
    {
        match self {
            Json::Object(p) => {
                let mut q: Vec<(String, Json)> = p;
                let ghost before = q@;
                q.push((key.to_owned(), value));
                assert(q@.drop_last() =~= before);
                Json::Object(q)
            },
            _ => self,
        }
    }

    /// The member under a key, if this is an object that has it.
    pub fn get(&self, key: &str) -> (r: Option<&Json>)
        ensures
            match r {
                Some(j) => member(self@, key@) == Some(j@),
                None => member(self@, key@) is None,
            },
    {
        match self {
            Json::Object(p) => find_member(p, key),
            _ => None,
        }
    }

    /// The integer, if this is one that fits.
    pub fn as_i64(&self) -> (r: Option<i64>)
        ensures
            match r {
                Some(n) => integer(Some(self@)) == Some(n as int),
                None => integer(Some(self@)) is None,
            },
    {
        match self {
            Json::Unsigned(n) => if *n <= i64::MAX as u64 {
                Some(*n as i64)
            } else {
                None
            },
            Json::Signed(n) => Some(*n),
            _ => None,
        }
    }

    /// The text, if this is one.
    pub fn as_str(&self) -> (r: Option<&str>)
        ensures
            match r {
                Some(s) => text(Some(self@)) == Some(s@),
                None => text(Some(self@)) is None,
            },
    {
        match self {
            Json::Text(s) => Some(s.as_str()),
            _ => None,
        }
    }
}

impl Duplicate for Json {
    fn duplicate(&self) -> (r: Self) {
        self.clone()
    }
}

} // verus!
