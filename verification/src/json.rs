//! JSON documents as plain values.
//!
//! The parsing is `serde_json`'s. What it hands back is copied into [`Json`],
//! a tree that verified code can read, and the accessors below read it.
use crate::text::str_eq;
use vstd::prelude::*;
use vstd::string::StringExecFns;

verus! {

/// A JSON value.
#[derive(Debug, PartialEq, Eq)]
pub enum Json {
    Null,
    Bool(bool),
    /// A number, with its value where that is a whole number from 0 to 2^64 - 1.
    Number(Option<u64>),
    Text(String),
    Array(Vec<Json>),
    /// The members of an object, each with its key.
    Object(Vec<(String, Json)>),
}

/// What a [`Json`] holds.
pub enum JsonView {
    Null,
    Bool(bool),
    Number(Option<u64>),
    Text(Seq<char>),
    Array(Seq<JsonView>),
    Object(Seq<(Seq<char>, JsonView)>),
}

/// What each of a row of values holds.
pub open spec fn views(items: Seq<Json>) -> Seq<JsonView>
    decreases items,
{
    Seq::new(
        items.len(),
        |i: int|
            if 0 <= i < items.len() {
                items[i].view()
            } else {
                JsonView::Null
            },
    )
}

/// What each of the members of an object holds, with its key.
pub open spec fn member_views(members: Seq<(String, Json)>) -> Seq<(Seq<char>, JsonView)>
    decreases members,
{
    Seq::new(
        members.len(),
        |i: int|
            if 0 <= i < members.len() {
                (members[i].0@, members[i].1.view())
            } else {
                (Seq::empty(), JsonView::Null)
            },
    )
}

impl View for Json {
    type V = JsonView;

    open spec fn view(&self) -> JsonView
        decreases self,
    {
        match self {
            Json::Null => JsonView::Null,
            Json::Bool(value) => JsonView::Bool(*value),
            Json::Number(value) => JsonView::Number(*value),
            Json::Text(text) => JsonView::Text(text@),
            Json::Array(items) => JsonView::Array(views(items@)),
            Json::Object(members) => JsonView::Object(member_views(members@)),
        }
    }
}

/// `serde_json::Value`, which is carried from the parser to the copy as it is.
#[verifier::external_type_specification]
#[verifier::external_body]
pub struct ExValue(serde_json::Value);

/// The document that `text` is in JSON, if it is one: what
/// `serde_json::from_str` makes of it.
pub uninterp spec fn json_document(text: Seq<char>) -> Option<JsonView>;

/// What a value of `serde_json` holds, as a tree.
pub uninterp spec fn value_contents(value: serde_json::Value) -> JsonView;

/// Calls `serde_json::from_str` for a `serde_json::Value`, and drops what the
/// error says. Whether it succeeds, and with what, depends on `text` alone;
/// [`json_document`] is the name of that result.
#[verifier::external_body]
fn value_from_str(text: &str) -> (parsed: Option<serde_json::Value>)
    ensures
        match parsed {
            Some(value) => json_document(text@) == Some(value_contents(value)),
            None => json_document(text@) is None,
        },
{
    serde_json::from_str::<serde_json::Value>(text).ok()
}

/// One level of a value of `serde_json`: which kind of value it is, and what
/// it holds at once.
enum Shape<'a> {
    Null,
    Bool(bool),
    Number(Option<u64>),
    Text(&'a str),
    Array(&'a Vec<serde_json::Value>),
    Object(Vec<(&'a String, &'a serde_json::Value)>),
}

/// What a value holds, given one level of it.
spec fn shape_contents(shape: Shape) -> JsonView {
    match shape {
        Shape::Null => JsonView::Null,
        Shape::Bool(value) => JsonView::Bool(value),
        Shape::Number(value) => JsonView::Number(value),
        Shape::Text(text) => JsonView::Text(text@),
        Shape::Array(items) => JsonView::Array(
            Seq::new(items@.len(), |i: int| value_contents(items@[i])),
        ),
        Shape::Object(members) => JsonView::Object(
            Seq::new(members@.len(), |i: int| (members@[i].0@, value_contents(*members@[i].1))),
        ),
    }
}

/// Tells the variants of a `serde_json::Value` apart and hands out what the
/// variant holds: a number as `serde_json::Number::as_u64` reads it, the
/// members of an object in the order of `serde_json::Map::iter`.
#[verifier::external_body]
fn shape_of(value: &serde_json::Value) -> (shape: Shape<'_>)
    ensures
        value_contents(*value) == shape_contents(shape),
{
    match value {
        serde_json::Value::Null => Shape::Null,
        serde_json::Value::Bool(value) => Shape::Bool(*value),
        serde_json::Value::Number(number) => Shape::Number(number.as_u64()),
        serde_json::Value::String(text) => Shape::Text(text),
        serde_json::Value::Array(items) => Shape::Array(items),
        serde_json::Value::Object(members) => Shape::Object(members.iter().collect()),
    }
}

/// Copies a value of `serde_json` into a [`Json`].
fn json_from_value(value: &serde_json::Value) -> (json: Json)
    ensures
        json@ == value_contents(*value),
    decreases value_contents(*value),
{
    match shape_of(value) {
        Shape::Null => Json::Null,
        Shape::Bool(value) => Json::Bool(value),
        Shape::Number(value) => Json::Number(value),
        Shape::Text(text) => Json::Text(String::from_str(text)),
        Shape::Array(items) => {
            let ghost held = value_contents(*value)->Array_0;
            let mut copied: Vec<Json> = Vec::new();
            let mut i: usize = 0;
            while i < items.len()
                invariant
                    i <= items@.len(),
                    copied@.len() == i,
                    value_contents(*value) == JsonView::Array(held),
                    held.len() == items@.len(),
                    forall|k: int| 0 <= k < items@.len() ==> held[k] == value_contents(items@[k]),
                    forall|k: int| 0 <= k < i ==> copied@[k]@ == held[k],
                decreases items@.len() - i,
            {
                proof {
                    let whole = value_contents(*value);
                    assert(decreases_to!(whole => whole->Array_0));
                    assert(decreases_to!(whole->Array_0 => whole->Array_0[i as int]));
                }
                copied.push(json_from_value(&items[i]));
                i += 1;
            }
            let json = Json::Array(copied);
            proof {
                lemma_view(json);
                assert(views(copied@) =~= held);
            }
            json
        },
        Shape::Object(members) => {
            let ghost held = value_contents(*value)->Object_0;
            let mut copied: Vec<(String, Json)> = Vec::new();
            let mut i: usize = 0;
            while i < members.len()
                invariant
                    i <= members@.len(),
                    copied@.len() == i,
                    value_contents(*value) == JsonView::Object(held),
                    held.len() == members@.len(),
                    forall|k: int|
                        0 <= k < members@.len() ==> held[k] == (
                            members@[k].0@,
                            value_contents(*members@[k].1),
                        ),
                    forall|k: int| 0 <= k < i ==> (copied@[k].0@, copied@[k].1@) == held[k],
                decreases members@.len() - i,
            {
                let key = String::from_str(members[i].0.as_str());
                proof {
                    let whole = value_contents(*value);
                    assert(decreases_to!(whole => whole->Object_0));
                    assert(decreases_to!(whole->Object_0 => whole->Object_0[i as int]));
                    assert(decreases_to!(whole->Object_0[i as int] => whole->Object_0[i as int].1));
                }
                let member = json_from_value(members[i].1);
                copied.push((key, member));
                i += 1;
            }
            let json = Json::Object(copied);
            proof {
                lemma_view(json);
                assert(member_views(copied@) =~= held);
            }
            json
        },
    }
}

/// The first member of `members` under `key`.
pub open spec fn member_of(members: Seq<(Seq<char>, JsonView)>, key: Seq<char>) -> Option<
    JsonView,
>
    decreases members.len(),
{
    if members.len() == 0 {
        None
    } else if members[0].0 == key {
        Some(members[0].1)
    } else {
        member_of(members.drop_first(), key)
    }
}

impl JsonView {
    /// The member under `key`, where this is an object that has one; the
    /// first, where it has several.
    pub open spec fn member(self, key: Seq<char>) -> Option<JsonView> {
        match self {
            JsonView::Object(members) => member_of(members, key),
            _ => None,
        }
    }

    /// The text, where this is a string.
    pub open spec fn text(self) -> Option<Seq<char>> {
        match self {
            JsonView::Text(text) => Some(text),
            _ => None,
        }
    }

    /// The value, where this is a whole number from 0 to 2^64 - 1.
    pub open spec fn number(self) -> Option<u64> {
        match self {
            JsonView::Number(value) => value,
            _ => None,
        }
    }

    /// The items, where this is an array.
    pub open spec fn items(self) -> Option<Seq<JsonView>> {
        match self {
            JsonView::Array(items) => Some(items),
            _ => None,
        }
    }

    /// The text of the member under `key`, where there is such a member and
    /// it is a string.
    pub open spec fn text_at(self, key: Seq<char>) -> Option<Seq<char>> {
        match self.member(key) {
            Some(member) => member.text(),
            None => None,
        }
    }

    /// The value of the member under `key`, where there is such a member and
    /// it is a whole number from 0 to 2^64 - 1.
    pub open spec fn number_at(self, key: Seq<char>) -> Option<u64> {
        match self.member(key) {
            Some(member) => member.number(),
            None => None,
        }
    }

    /// The items of the member under `key`, where there is such a member and
    /// it is an array.
    pub open spec fn items_at(self, key: Seq<char>) -> Option<Seq<JsonView>> {
        match self.member(key) {
            Some(member) => member.items(),
            None => None,
        }
    }
}

/// What the view of an array or an object holds, item by item.
pub proof fn lemma_view(json: Json)
    ensures
        match json {
            Json::Array(items) => {
                &&& json@ == JsonView::Array(views(items@))
                &&& views(items@).len() == items@.len()
                &&& forall|k: int| 0 <= k < items@.len() ==> views(items@)[k] == items@[k]@
            },
            Json::Object(members) => {
                &&& json@ == JsonView::Object(member_views(members@))
                &&& member_views(members@).len() == members@.len()
                &&& forall|k: int|
                    0 <= k < members@.len() ==> member_views(members@)[k] == (
                        members@[k].0@,
                        members@[k].1@,
                    )
            },
            _ => true,
        },
{
    match json {
        Json::Array(items) => {
            assert(json == Json::Array(items));
            assert(json@ == JsonView::Array(views(items@)));
        },
        Json::Object(members) => {
            assert(json == Json::Object(members));
            assert(json@ == JsonView::Object(member_views(members@)));
        },
        _ => {},
    }
}

impl Json {
    /// Reads `text` as a JSON document.
    pub fn parse(text: &str) -> (json: Option<Json>)
        ensures
            match json {
                Some(json) => json_document(text@) == Some(json@),
                None => json_document(text@) is None,
            },
    {
        match value_from_str(text) {
            Some(value) => Some(json_from_value(&value)),
            None => None,
        }
    }

    /// The member under `key`, where this is an object that has one.
    pub fn get<'a>(&'a self, key: &str) -> (found: Option<&'a Json>)
        ensures
            match found {
                Some(member) => self@.member(key@) == Some(member@),
                None => self@.member(key@) is None,
            },
    {
        match self {
            Json::Object(members) => {
                let mut i: usize = 0;
                let ghost pairs = member_views(members@);
                proof {
                    lemma_view(*self);
                    assert(pairs.skip(0) =~= pairs);
                }
                while i < members.len()
                    invariant
                        i <= members@.len(),
                        pairs.len() == members@.len(),
                        forall|k: int|
                            0 <= k < pairs.len() ==> pairs[k] == (members@[k].0@, members@[k].1@),
                        self@.member(key@) == member_of(pairs.skip(i as int), key@),
                    decreases members@.len() - i,
                {
                    assert(pairs.skip(i as int)[0] == pairs[i as int]);
                    assert(pairs.skip(i as int).drop_first() =~= pairs.skip(i + 1));
                    if str_eq(members[i].0.as_str(), key) {
                        return Some(&members[i].1);
                    }
                    i += 1;
                }
                None
            },
            _ => None,
        }
    }

    /// Whether this is an object.
    pub fn is_object(&self) -> (object: bool)
        ensures
            object == (self@ is Object),
    {
        match self {
            Json::Object(_) => true,
            _ => false,
        }
    }

    /// The text, where this is a string.
    pub fn as_str(&self) -> (text: Option<&str>)
        ensures
            match text {
                Some(text) => self@.text() == Some(text@),
                None => self@.text() is None,
            },
    {
        match self {
            Json::Text(text) => Some(text.as_str()),
            _ => None,
        }
    }

    /// The value, where this is a whole number from 0 to 2^64 - 1.
    pub fn as_u64(&self) -> (value: Option<u64>)
        ensures
            value == self@.number(),
    {
        match self {
            Json::Number(value) => *value,
            _ => None,
        }
    }

    /// The items, where this is an array.
    pub fn as_array(&self) -> (items: Option<&Vec<Json>>)
        ensures
            match items {
                Some(items) => self@.items() == Some(views(items@)),
                None => self@.items() is None,
            },
    {
        match self {
            Json::Array(items) => {
                proof {
                    lemma_view(*self);
                }
                Some(items)
            },
            _ => None,
        }
    }

    /// The text of the member under `key`.
    pub fn str_at<'a>(&'a self, key: &str) -> (text: Option<&'a str>)
        ensures
            match text {
                Some(text) => self@.text_at(key@) == Some(text@),
                None => self@.text_at(key@) is None,
            },
    {
        match self.get(key) {
            Some(member) => member.as_str(),
            None => None,
        }
    }

    /// The value of the member under `key`.
    pub fn u64_at(&self, key: &str) -> (value: Option<u64>)
        ensures
            value == self@.number_at(key@),
    {
        match self.get(key) {
            Some(member) => member.as_u64(),
            None => None,
        }
    }

    /// The items of the member under `key`.
    pub fn array_at<'a>(&'a self, key: &str) -> (items: Option<&'a Vec<Json>>)
        ensures
            match items {
                Some(items) => self@.items_at(key@) == Some(views(items@)),
                None => self@.items_at(key@) is None,
            },
    {
        match self.get(key) {
            Some(member) => member.as_array(),
            None => None,
        }
    }
}

} // verus!
