//! Reading a JSON document from text. The reading itself is left to
//! `serde_json`; what it reports is brought into this library's own types.

use vstd::prelude::*;
use crate::error::{ConvertError, Fault};
use crate::json::{
    lemma_array_view, lemma_item_smaller, lemma_member_smaller, lemma_object_view, Json, JsonTree,
};

verus! {

/// The value type of `serde_json`, carried through as it is.
#[verifier::external_type_specification]
#[verifier::external_body]
pub struct ExValue(serde_json::Value);

/// The error type of `serde_json`, carried through as it is.
#[verifier::external_type_specification]
#[verifier::external_body]
pub struct ExError(serde_json::Error);

/// What `serde_json::from_str` makes of `input`: the document that it reads,
/// or the words of the error that it reports.
pub uninterp spec fn parsed(input: Seq<char>) -> Result<JsonTree, Seq<char>>;

/// The tree that a `serde_json::Value` holds: its numbers as `serde_json`
/// writes them out, its object members in the order in which its map hands
/// them out.
pub uninterp spec fn value_tree(value: serde_json::Value) -> JsonTree;

/// The words in which a `serde_json::Error` describes itself.
pub uninterp spec fn error_text(error: serde_json::Error) -> Seq<char>;

/// Reads one JSON document.
///
/// Trusted: calls `serde_json::from_str` for a `serde_json::Value`. The
/// contract only gives the outcome its name: the same input always yields the
/// same value, or fails with the same words.
#[verifier::external_body]
fn read_value(input: &str) -> (r: Result<serde_json::Value, serde_json::Error>)
    ensures
        match r {
            Ok(value) => parsed(input@) == Ok::<JsonTree, Seq<char>>(value_tree(value)),
            Err(error) => parsed(input@) == Err::<JsonTree, Seq<char>>(error_text(error)),
        },
{
    serde_json::from_str(input)
}

/// One level of a `serde_json::Value`: what kind of value it is, with its
/// number written out as text and with its items or members still to be
/// looked at.
enum Shape<'a> {
    Null,
    Bool(bool),
    Number(String),
    Text(&'a str),
    Array(&'a Vec<serde_json::Value>),
    Object(Vec<(&'a String, &'a serde_json::Value)>),
}

/// The tree that a value of the given shape holds.
spec fn shape_tree(shape: Shape) -> JsonTree {
    match shape {
        Shape::Null => JsonTree::Null,
        Shape::Bool(b) => JsonTree::Bool(b),
        Shape::Number(digits) => JsonTree::Number(digits@),
        Shape::Text(text) => JsonTree::Text(text@),
        Shape::Array(items) => JsonTree::Array(
            items@.map_values(|item: serde_json::Value| value_tree(item)),
        ),
        Shape::Object(members) => JsonTree::Object(
            members@.map_values(
                |member: (&String, &serde_json::Value)| (member.0@, value_tree(*member.1)),
            ),
        ),
    }
}

/// Takes a `serde_json::Value` apart by one level.
///
/// Trusted: tells the variants of `serde_json::Value` apart. A number is
/// written out by `to_string` of `serde_json::Number`; the members of an
/// object are handed out by `serde_json::Map::iter`, in its order. The
/// contract says that the tree of the value is made of the trees of what is
/// handed out.
#[verifier::external_body]
fn shape_of(value: &serde_json::Value) -> (shape: Shape<'_>)
    ensures
        shape_tree(shape) == value_tree(*value),
{
    match value {
        serde_json::Value::Null => Shape::Null,
        serde_json::Value::Bool(b) => Shape::Bool(*b),
        serde_json::Value::Number(n) => Shape::Number(n.to_string()),
        serde_json::Value::String(s) => Shape::Text(s.as_str()),
        serde_json::Value::Array(items) => Shape::Array(items),
        serde_json::Value::Object(map) => Shape::Object(map.iter().collect()),
    }
}

/// Copies a `serde_json::Value` into a [`Json`].
#[verifier::loop_isolation(false)]
fn json_of(value: &serde_json::Value) -> (json: Json)
    ensures
        json@ == value_tree(*value),
    decreases value_tree(*value),
{
    match shape_of(value) {
        Shape::Null => Json::Null,
        Shape::Bool(b) => Json::Bool(b),
        Shape::Number(digits) => Json::Number(digits),
        Shape::Text(text) => Json::Text(text.to_owned()),
        Shape::Array(items) => {
            let ghost trees = items@.map_values(|item: serde_json::Value| value_tree(item));
            let mut copies: Vec<Json> = Vec::new();
            let mut i: usize = 0;
            while i < items.len()
                invariant
                    i <= items.len(),
                    copies@.len() == i,
                    forall|j: int| 0 <= j < i ==> (#[trigger] copies@[j])@ == trees[j],
                decreases items.len() - i,
            {
                assert(trees[i as int] == value_tree(items@[i as int]));
                proof {
                    lemma_item_smaller(value_tree(*value), i as int);
                }
                copies.push(json_of(&items[i]));
                i += 1;
            }
            let json = Json::Array(copies);
            proof {
                lemma_array_view(json);
                assert(json@->Array_0 =~= trees);
            }
            json
        },
        Shape::Object(members) => {
            let ghost trees = members@.map_values(
                |member: (&String, &serde_json::Value)| (member.0@, value_tree(*member.1)),
            );
            let mut copies: Vec<(String, Json)> = Vec::new();
            let mut i: usize = 0;
            while i < members.len()
                invariant
                    i <= members.len(),
                    copies@.len() == i,
                    forall|j: int|
                        0 <= j < i ==> ((#[trigger] copies@[j]).0@, copies@[j].1@) == trees[j],
                decreases members.len() - i,
            {
                assert(trees[i as int] == (
                    members@[i as int].0@,
                    value_tree(*members@[i as int].1),
                ));
                proof {
                    lemma_member_smaller(value_tree(*value), i as int);
                }
                let name = members[i].0.clone();
                let member = json_of(members[i].1);
                copies.push((name, member));
                i += 1;
            }
            let json = Json::Object(copies);
            proof {
                lemma_object_view(json);
                assert(json@->Object_0 =~= trees);
            }
            json
        },
    }
}

/// The parser's own words for an error.
///
/// Trusted: calls `to_string` of `serde_json::Error`. The contract only gives
/// the text its name.
#[verifier::external_body]
fn diagnostic(error: &serde_json::Error) -> (text: String)
    ensures
        text@ == error_text(*error),
{
    error.to_string()
}

/// Reads a JSON document from `input`.
///
/// Fails with [`ConvertError::JsonParse`] exactly where the parser does, and
/// keeps the parser's words.
pub fn parse(input: &str) -> (r: Result<Json, ConvertError>)
    ensures
        match parsed(input@) {
            Ok(tree) => r matches Ok(json) && json@ == tree,
            Err(words) => r matches Err(e) && e@ == Fault::JsonParse(words),
        },
{
    match read_value(input) {
        Ok(value) => Ok(json_of(&value)),
        Err(error) => Err(ConvertError::JsonParse(diagnostic(&error))),
    }
}

} // verus!
