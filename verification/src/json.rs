//! JSON values as the kernels read them, and the reading of one line of text
//! as JSON.
//!
//! The text is parsed by serde_json. What it gives is held as a tree of this
//! crate's own, in which a number keeps its decimal text, and its value as an
//! `i64` where it is an integer in that range. Arithmetic on numbers that are
//! not such integers is left to the caller, who has the text.

use vstd::prelude::*;

verus! {

/// A JSON number.
#[derive(Debug, PartialEq, Eq)]
pub struct Number {
    /// The number as an `i64`, for an integer in that range.
    pub integer: Option<i64>,
    /// The number as decimal text.
    pub text: String,
}

/// A JSON value.
#[derive(Debug, PartialEq, Eq)]
pub enum Json {
    Null,
    Bool(bool),
    Number(Number),
    Text(String),
    Array(Vec<Json>),
    /// The entries of an object, each a key with its value. An object that
    /// comes from the parser has no key twice; where a key occurs more than
    /// once, the first entry with it counts.
    Object(Vec<(String, Json)>),
}

/// `serde_json::Value`, as the parser gives it. Nothing is known of what it
/// holds but through `contents`.
#[verifier::external_type_specification]
#[verifier::external_body]
pub struct ExValue(serde_json::Value);

/// What `serde_json::from_str::<serde_json::Value>` gives on `text`, as a
/// tree: nothing where it fails.
pub uninterp spec fn json_of_text(text: Seq<char>) -> Option<Json>;

/// The tree that a `serde_json::Value` holds.
pub uninterp spec fn contents(value: serde_json::Value) -> Json;

/// `serde_json::from_str` at the type `serde_json::Value`, with its error
/// dropped. Trusted: the value that it gives holds the tree that
/// `json_of_text` names for this text, and it fails where that names none.
#[verifier::external_body]
fn parse_value(text: &str) -> (r: Option<serde_json::Value>)
    ensures
        match r {
            Some(value) => json_of_text(text@) == Some(contents(value)),
            None => json_of_text(text@) is None,
        },
{
    serde_json::from_str::<serde_json::Value>(text).ok()
}

/// Hands out what a `serde_json::Value` holds, variant by variant: a number
/// with `Number::as_i64` and its `Display` text, an array with its items in
/// order, an object with its entries in the order of its iterator. Trusted:
/// the result is the tree that `contents` names.
#[verifier::external_body]
fn into_json(value: serde_json::Value) -> (r: Json)
    ensures
        r == contents(value),
{
    match value {
        serde_json::Value::Null => Json::Null,
        serde_json::Value::Bool(b) => Json::Bool(b),
        serde_json::Value::Number(n) => Json::Number(Number { integer: n.as_i64(), text: n.to_string() }),
        serde_json::Value::String(s) => Json::Text(s),
        serde_json::Value::Array(items) => Json::Array(items.into_iter().map(into_json).collect()),
        serde_json::Value::Object(map) => Json::Object(
            map.into_iter().map(|(k, v)| (k, into_json(v))).collect(),
        ),
    }
}

/// Parses `text` as one JSON value.
pub fn parse_json(text: &str) -> (r: Option<Json>)
    ensures
        r == json_of_text(text@),
{
    match parse_value(text) {
        Some(value) => Some(into_json(value)),
        None => None,
    }
}

/// The index of the first entry from `from` on with the key `key`.
pub open spec fn entry_index(entries: Seq<(String, Json)>, key: Seq<char>, from: int) -> Option<int>
    decreases entries.len() - from,
{
    if from < 0 || from >= entries.len() {
        None
    } else if entries[from].0@ == key {
        Some(from)
    } else {
        entry_index(entries, key, from + 1)
    }
}

/// The value of the first entry with the key `key`.
pub open spec fn entry_value(entries: Seq<(String, Json)>, key: Seq<char>) -> Option<Json> {
    match entry_index(entries, key, 0) {
        Some(i) => Some(entries[i].1),
        None => None,
    }
}

/// The value under `key`, where `json` is an object that has the key.
pub open spec fn field(json: Json, key: Seq<char>) -> Option<Json> {
    match json {
        Json::Object(entries) => entry_value(entries@, key),
        _ => None,
    }
}

/// The first entry from `from` on with the key `key` is at an index from
/// `from` on, has that key, and no entry between has it.
pub(crate) proof fn lemma_entry_index(entries: Seq<(String, Json)>, key: Seq<char>, from: int)
    requires
        0 <= from,
    ensures
        match entry_index(entries, key, from) {
            Some(i) => {
                &&& from <= i < entries.len()
                &&& entries[i].0@ == key
                &&& forall|j: int| from <= j < i ==> (#[trigger] entries[j]).0@ != key
            },
            None => forall|j: int| from <= j < entries.len() ==> (#[trigger] entries[j]).0@ != key,
        },
    decreases entries.len() - from,
{
    if from < entries.len() && entries[from].0@ != key {
        lemma_entry_index(entries, key, from + 1);
    }
}

/// The index of the first entry with the key `key`.
pub fn find_entry(entries: &Vec<(String, Json)>, key: &str) -> (r: Option<usize>)
    ensures
        match r {
            Some(i) => i < entries@.len() && entry_index(entries@, key@, 0) == Some(i as int),
            None => entry_index(entries@, key@, 0) is None,
        },
{
    let wanted = key.to_owned();
    let mut i: usize = 0;
    while i < entries.len()
        invariant
            0 <= i <= entries.len(),
            wanted@ == key@,
            entry_index(entries@, key@, 0) == entry_index(entries@, key@, i as int),
        decreases entries.len() - i,
    {
        if entries[i].0 == wanted {
            return Some(i);
        }
        i += 1;
    }
    None
}

impl Json {
    /// The value under `key`, where this is an object that has the key.
    pub fn get(&self, key: &str) -> (r: Option<&Json>)
        ensures
            match r {
                Some(value) => field(*self, key@) == Some(*value),
                None => field(*self, key@) is None,
            },
    {
        match self {
            Json::Object(entries) => match find_entry(entries, key) {
                Some(i) => Some(&entries[i].1),
                None => None,
            },
            _ => None,
        }
    }

    /// The value under `key`, taken out of this value.
    pub fn take(self, key: &str) -> (r: Option<Json>)
        ensures
            r == field(self, key@),
    {
        match self {
            Json::Object(mut entries) => match find_entry(&entries, key) {
                Some(i) => {
                    let (_, value) = entries.swap_remove(i);
                    Some(value)
                },
                None => None,
            },
            _ => None,
        }
    }
}

} // verus!
