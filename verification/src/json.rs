//! JSON documents as trees, and the mathematical model the contracts speak of.

use vstd::prelude::*;

verus! {

/// A JSON value.
///
/// A number carries the text it is written with; an object carries its
/// members in the order in which they are visited.
#[derive(Debug, PartialEq, Eq)]
pub enum Json {
    Null,
    Bool(bool),
    Number(String),
    Text(String),
    Array(Vec<Json>),
    Object(Vec<(String, Json)>),
}

/// The model of a [`Json`] value: the same tree over sequences.
pub enum JsonTree {
    Null,
    Bool(bool),
    Number(Seq<char>),
    Text(Seq<char>),
    Array(Seq<JsonTree>),
    Object(Seq<(Seq<char>, JsonTree)>),
}

/// A character that a JSON number is written with.
pub open spec fn numeral_char(c: char) -> bool {
    ('0' <= c && c <= '9') || c == '-' || c == '+' || c == '.' || c == 'e' || c == 'E'
}

/// A text that is made of the characters of a JSON number and is not empty.
pub open spec fn is_numeral(text: Seq<char>) -> bool {
    &&& text.len() > 0
    &&& forall|i: int| 0 <= i < text.len() ==> numeral_char(#[trigger] text[i])
}

/// No two of `members` have the same name.
pub open spec fn names_distinct(members: Seq<(Seq<char>, JsonTree)>) -> bool {
    forall|i: int, j: int|
        0 <= i < j < members.len() ==> (#[trigger] members[i]).0 != (#[trigger] members[j]).0
}

impl JsonTree {
    /// The tree is a JSON document: each number is written as a number, and
    /// within an object each name occurs once.
    pub open spec fn wf(self) -> bool
        decreases self,
    {
        match self {
            JsonTree::Number(digits) => is_numeral(digits),
            JsonTree::Array(items) => forall|i: int|
                0 <= i < items.len() ==> (#[trigger] items[i]).wf(),
            JsonTree::Object(members) => {
                &&& names_distinct(members)
                &&& forall|i: int| 0 <= i < members.len() ==> (#[trigger] members[i]).1.wf()
            },
            _ => true,
        }
    }
}

impl View for Json {
    type V = JsonTree;

    open spec fn view(&self) -> JsonTree
        decreases self,
    {
        match self {
            Json::Null => JsonTree::Null,
            Json::Bool(b) => JsonTree::Bool(*b),
            Json::Number(digits) => JsonTree::Number(digits@),
            Json::Text(text) => JsonTree::Text(text@),
            Json::Array(items) => JsonTree::Array(
                Seq::new(
                    items@.len(),
                    |i: int|
                        if 0 <= i < items@.len() {
                            items@[i]@
                        } else {
                            JsonTree::Null
                        },
                ),
            ),
            Json::Object(members) => JsonTree::Object(
                Seq::new(
                    members@.len(),
                    |i: int|
                        if 0 <= i < members@.len() {
                            (members@[i].0@, members@[i].1@)
                        } else {
                            (Seq::empty(), JsonTree::Null)
                        },
                ),
            ),
        }
    }
}

/// An item of an array is a smaller tree than the array.
pub proof fn lemma_item_smaller(tree: JsonTree, i: int)
    requires
        tree is Array,
        0 <= i < tree->Array_0.len(),
    ensures
        decreases_to!(tree => tree->Array_0[i]),
{
    match tree {
        JsonTree::Array(items) => {
            assert(decreases_to!(tree => items));
            assert(decreases_to!(items => items[i]));
        },
        _ => {},
    }
}

/// The value of a member of an object is a smaller tree than the object.
pub proof fn lemma_member_smaller(tree: JsonTree, i: int)
    requires
        tree is Object,
        0 <= i < tree->Object_0.len(),
    ensures
        decreases_to!(tree => tree->Object_0[i].1),
{
    match tree {
        JsonTree::Object(members) => {
            assert(decreases_to!(tree => members));
            assert(decreases_to!(members => members[i]));
            assert(decreases_to!(members[i] => members[i].1));
        },
        _ => {},
    }
}

/// The model of an array holds the models of its items, in order.
pub proof fn lemma_array_view(value: Json)
    requires
        value is Array,
    ensures
        value@ is Array,
        value@->Array_0.len() == value->Array_0@.len(),
        forall|i: int|
            0 <= i < value->Array_0@.len() ==> #[trigger] value@->Array_0[i]
                == value->Array_0@[i]@,
{
}

/// The model of an object holds its members' names and the models of their
/// values, in order.
pub proof fn lemma_object_view(value: Json)
    requires
        value is Object,
    ensures
        value@ is Object,
        value@->Object_0.len() == value->Object_0@.len(),
        forall|i: int|
            0 <= i < value->Object_0@.len() ==> #[trigger] value@->Object_0[i] == (
                value->Object_0@[i].0@,
                value->Object_0@[i].1@,
            ),
{
    reveal_with_fuel(<Json as View>::view, 2);
}

} // verus!
