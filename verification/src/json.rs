//! JSON documents, read with `serde_json`.
//!
//! `serde_json` parses the bytes and hands out the members of a document. What
//! a document holds is modelled by [`JsonTree`].

use serde_json::Value;
use vstd::prelude::*;

verus! {

/// What a JSON value holds.
pub enum JsonTree {
    Null,
    Bool(bool),
    /// A number; `Some` when it is written as an integer, without fraction or
    /// exponent, and a `u64` holds it.
    Number(Option<u64>),
    Text(Seq<char>),
    Array(Seq<JsonTree>),
    Object(Map<Seq<char>, JsonTree>),
}

impl JsonTree {
    /// The member called `key`, when this is an object that has one.
    pub open spec fn member(self, key: Seq<char>) -> Option<JsonTree> {
        match self {
            JsonTree::Object(members) => if members.contains_key(key) {
                Some(members[key])
            } else {
                None
            },
            _ => None,
        }
    }

    /// The text, when this is a string.
    pub open spec fn text(self) -> Option<Seq<char>> {
        match self {
            JsonTree::Text(text) => Some(text),
            _ => None,
        }
    }

    /// The number, when this is one that is written as an integer, without
    /// fraction or exponent, and a `u64` holds it.
    pub open spec fn whole_number(self) -> Option<u64> {
        match self {
            JsonTree::Number(number) => number,
            _ => None,
        }
    }

    /// The items, when this is an array.
    pub open spec fn items(self) -> Option<Seq<JsonTree>> {
        match self {
            JsonTree::Array(items) => Some(items),
            _ => None,
        }
    }
}

/// A parsed JSON value. What it holds is given by [`json_tree`].
#[verifier::external_type_specification]
#[verifier::external_body]
pub struct ExValue(serde_json::Value);

/// The error of a failed parse.
#[verifier::external_type_specification]
#[verifier::external_body]
pub struct ExError(serde_json::Error);

/// What a parsed value holds.
pub uninterp spec fn json_tree(value: serde_json::Value) -> JsonTree;

/// What `serde_json::from_slice` makes of `bytes`: `None` when it refuses them.
pub uninterp spec fn json_document(bytes: Seq<u8>) -> Option<JsonTree>;

/// `serde_json::from_slice`, into a `serde_json::Value`: whether it succeeds,
/// and what the value then holds, depends on `bytes` alone.
#[verifier::external_body]
pub(crate) fn parse_json(bytes: &[u8]) -> (result: Result<Value, serde_json::Error>)
    ensures
        result is Ok <==> json_document(bytes@) is Some,
        result matches Ok(value) ==> json_document(bytes@) == Some(json_tree(value)),
{
    serde_json::from_slice(bytes)
}

/// `serde_json::Value::get` with a string: the member of that name of an
/// object; `None` when there is none, and on a value that is no object.
#[verifier::external_body]
pub(crate) fn json_member<'a>(value: &'a Value, key: &str) -> (member: Option<&'a Value>)
    ensures
        member is Some <==> json_tree(*value).member(key@) is Some,
        member matches Some(found) ==> json_tree(*value).member(key@) == Some(json_tree(*found)),
{
    value.get(key)
}

/// `serde_json::Value::as_str`: the text of a string; `None` on any other value.
pub assume_specification[ serde_json::Value::as_str ](value: &Value) -> (result: Option<&str>)
    ensures
        result is Some <==> json_tree(*value).text() is Some,
        result matches Some(found) ==> json_tree(*value).text() == Some(found@),
;

/// `serde_json::Value::as_u64`: the number, when it is written as an integer,
/// without fraction or exponent, and a `u64` holds it; `None` on any other value.
pub assume_specification[ serde_json::Value::as_u64 ](value: &Value) -> (result: Option<u64>)
    ensures
        result == json_tree(*value).whole_number(),
;

/// `serde_json::Value::as_array`: the items of an array, in order; `None` on
/// any other value.
pub assume_specification[ serde_json::Value::as_array ](value: &Value) -> (result: Option<
    &Vec<Value>,
>)
    ensures
        result is Some <==> json_tree(*value).items() is Some,
        result matches Some(found) ==> json_tree(*value).items() == Some(
            found@.map_values(|item: Value| json_tree(item)),
        ),
;

} // verus!
