//! JSON documents as plain data, and the parser that produces them.

use vstd::prelude::*;
use vstd::string::*;

verus! {

/// One `name: value` member of a JSON object.
#[derive(Debug, PartialEq, Eq)]
pub struct Member {
    pub name: String,
    pub value: Json,
}

/// A JSON document.
///
/// A number keeps only what the archive format reads from it: its value as a
/// `u64`, where the number is a non-negative integer that fits, else nothing.
#[derive(Debug, PartialEq, Eq)]
pub enum Json {
    Null,
    Bool(bool),
    Number(Option<u64>),
    Text(String),
    Array(Vec<Json>),
    Object(Vec<Member>),
}

/// The mathematical value of a [`Json`] document.
pub enum JsonValue {
    Null,
    Bool(bool),
    Number(Option<u64>),
    Text(Seq<char>),
    Array(Seq<JsonValue>),
    Object(Seq<(Seq<char>, JsonValue)>),
}

/// Whether `at` is the place of the first member called `key`.
pub open spec fn is_first_named(
    members: Seq<(Seq<char>, JsonValue)>,
    key: Seq<char>,
    at: int,
) -> bool {
    &&& 0 <= at < members.len()
    &&& members[at].0 == key
    &&& forall|j: int| 0 <= j < at ==> (#[trigger] members[j]).0 != key
}

/// The place of the first member called `key`, if there is one.
pub open spec fn first_named(members: Seq<(Seq<char>, JsonValue)>, key: Seq<char>) -> Option<int> {
    if exists|at: int| is_first_named(members, key, at) {
        Some(choose|at: int| is_first_named(members, key, at))
    } else {
        None
    }
}

/// The first member called `key` stands at one place only.
pub proof fn lemma_first_named(members: Seq<(Seq<char>, JsonValue)>, key: Seq<char>, at: int)
    requires
        is_first_named(members, key, at),
    ensures
        first_named(members, key) == Some(at),
{
}

impl JsonValue {
    /// The value of the first member called `key`, where `self` is an object
    /// that has one.
    pub open spec fn lookup(self, key: Seq<char>) -> Option<JsonValue> {
        match self {
            JsonValue::Object(members) => match first_named(members, key) {
                Some(at) => Some(members[at].1),
                None => None,
            },
            _ => None,
        }
    }

    /// The value of the member called `key`; `Null` where `self` has no such
    /// member or is no object.
    pub open spec fn member(self, key: Seq<char>) -> JsonValue {
        match self.lookup(key) {
            Some(value) => value,
            None => JsonValue::Null,
        }
    }
}

/// A member that `lookup` finds is a part of the value it was found in.
pub proof fn lemma_lookup_decreases(value: JsonValue, key: Seq<char>)
    ensures
        value.lookup(key) matches Some(found) ==> decreases_to!(value => found),
{
}

/// The value that `json` stands for.
pub open spec fn json_value(json: Json) -> JsonValue
    decreases json,
{
    match json {
        Json::Null => JsonValue::Null,
        Json::Bool(b) => JsonValue::Bool(b),
        Json::Number(n) => JsonValue::Number(n),
        Json::Text(s) => JsonValue::Text(s@),
        Json::Array(items) => JsonValue::Array(
            Seq::new(
                items@.len(),
                |i: int|
                    if 0 <= i < items@.len() {
                        json_value(items@[i])
                    } else {
                        JsonValue::Null
                    },
            ),
        ),
        Json::Object(members) => JsonValue::Object(
            Seq::new(
                members@.len(),
                |i: int|
                    if 0 <= i < members@.len() {
                        (members@[i].name@, json_value(members@[i].value))
                    } else {
                        (Seq::empty(), JsonValue::Null)
                    },
            ),
        ),
    }
}

impl View for Json {
    type V = JsonValue;

    open spec fn view(&self) -> JsonValue {
        json_value(*self)
    }
}

/// `serde_json::Value`, the parser's own tree. Nothing of it is visible here.
#[verifier::external_type_specification]
#[verifier::external_body]
pub struct ExValue(serde_json::Value);

/// `serde_json::Error`, the parser's account of a rejected text. Nothing of
/// it is visible here.
#[verifier::external_type_specification]
#[verifier::external_body]
pub struct ExError(serde_json::Error);

/// What a `serde_json::Value` holds: null, a boolean, a number, a string, the
/// items of an array or the members of an object. Not defined here; it is
/// whatever taking the value apart gives.
pub uninterp spec fn value_contents(value: serde_json::Value) -> JsonValue;

/// The document that `serde_json::from_slice` reads from `text`, or `None`
/// where it rejects `text`. Not defined here: the grammar is the parser's.
pub uninterp spec fn json_document(text: Seq<u8>) -> Option<JsonValue>;

/// `serde_json::from_slice`, asked for a `serde_json::Value`.
///
/// Assumed, not proved: whether the parser accepts `text`, and what the value
/// holds that it then returns, depend on the bytes of `text` alone.
#[verifier::external_body]
fn value_from_slice(text: &[u8]) -> (r: Result<serde_json::Value, serde_json::Error>)
    ensures
        match r {
            Ok(value) => json_document(text@) == Some(value_contents(value)),
            Err(_) => json_document(text@) is None,
        },
{
    serde_json::from_slice::<serde_json::Value>(text)
}

/// Takes a `serde_json::Value` apart, variant by variant, down to its
/// leaves: a string, the items of an array and the members of an object are
/// moved over as they are, the latter two in the order in which the value
/// hands them out, and of a number `serde_json::Number::as_u64` is kept.
///
/// Assumed, not proved: the result stands for what the value holds.
#[verifier::external_body]
fn json_of(value: serde_json::Value) -> (json: Json)
    ensures
        json@ == value_contents(value),
{
    match value {
        serde_json::Value::Null => Json::Null,
        serde_json::Value::Bool(b) => Json::Bool(b),
        serde_json::Value::Number(n) => Json::Number(n.as_u64()),
        serde_json::Value::String(s) => Json::Text(s),
        serde_json::Value::Array(a) => Json::Array(a.into_iter().map(json_of).collect()),
        serde_json::Value::Object(m) => Json::Object(
            m.into_iter().map(|(name, v)| Member { name, value: json_of(v) }).collect(),
        ),
    }
}

impl Json {
    /// The value of the first member called `key`, where `self` is an object
    /// that has one.
    pub fn get(&self, key: &str) -> (found: Option<&Json>)
        ensures
            match found {
                Some(value) => self@.lookup(key@) == Some(value@),
                None => self@.lookup(key@) is None,
            },
    {
        match self {
            Json::Object(members) => {
                let wanted = String::from_str(key);
                let ghost model = self@->Object_0;
                let mut at: usize = 0;
                while at < members.len()
                    invariant
                        at <= members.len(),
                        self@ == JsonValue::Object(model),
                        model.len() == members.len(),
                        wanted@ == key@,
                        forall|j: int|
                            0 <= j < members.len() ==> (#[trigger] model[j]) == (
                                members[j].name@,
                                members[j].value@,
                            ),
                        forall|j: int| 0 <= j < at ==> (#[trigger] model[j]).0 != key@,
                    decreases members.len() - at,
                {
                    if members[at].name == wanted {
                        proof {
                            lemma_first_named(model, key@, at as int);
                        }
                        return Some(&members[at].value);
                    }
                    at = at + 1;
                }
                None
            },
            _ => None,
        }
    }
}

/// Parses `text` as one JSON document; `None` where it is none.
pub fn parse(text: &[u8]) -> (r: Option<Json>)
    ensures
        match r {
            Some(json) => json_document(text@) == Some(json@),
            None => json_document(text@) is None,
        },
{
    match value_from_slice(text) {
        Ok(value) => Some(json_of(value)),
        Err(_) => None,
    }
}

} // verus!

