//! Flattening: one entry for each leaf of a JSON tree, under the path that
//! leads to it.

use vstd::prelude::*;
use crate::entries::{
    lemma_with_entries_concat, lemma_with_one_entry, with_entries, Entry, KeyValues,
};
use crate::error::{ConvertError, Fault};
use crate::json::{lemma_array_view, lemma_object_view, Json, JsonTree};
use crate::path::{child_path, decimal, decimal_text, join_path};
use crate::sanitize::{sanitize_key, sanitize_value, sanitized_key, sanitized_value};

verus! {

/// What a traversal yields: the entries of the leaves met before the first
/// failure, in the order in which they were met, and that failure if there
/// is one.
pub struct Walk {
    pub entries: Seq<Entry>,
    pub failure: Option<Fault>,
}

impl Walk {
    /// Nothing met.
    pub open spec fn nothing() -> Walk {
        Walk { entries: Seq::empty(), failure: None }
    }

    /// One leaf met.
    pub open spec fn leaf(path: Seq<char>, value: Seq<char>) -> Walk {
        Walk { entries: seq![(path, value)], failure: None }
    }

    /// A failure at once.
    pub open spec fn failed(fault: Fault) -> Walk {
        Walk { entries: Seq::empty(), failure: Some(fault) }
    }

    /// This traversal followed by `next`, which is not begun if this one
    /// failed.
    pub open spec fn followed_by(self, next: Walk) -> Walk {
        if self.failure is Some {
            self
        } else {
            Walk { entries: self.entries + next.entries, failure: next.failure }
        }
    }
}

/// The traversal of `tree`, whose own path is `path`; `root` says whether the
/// tree is the root of the document, whose children are put under their
/// segments alone.
///
/// A leaf yields one entry under `path`: `null`, `true` or `false`, the text
/// of a number as it is, a string sanitized. An array is traversed item by
/// item, each under its index; an object member by member, each under its
/// sanitized name. An empty array or object yields nothing.
pub open spec fn walk(tree: JsonTree, path: Seq<char>, root: bool) -> Walk
    decreases tree, 0nat,
{
    match tree {
        JsonTree::Null => Walk::leaf(path, "null"@),
        JsonTree::Bool(true) => Walk::leaf(path, "true"@),
        JsonTree::Bool(false) => Walk::leaf(path, "false"@),
        JsonTree::Number(digits) => Walk::leaf(path, digits),
        JsonTree::Text(text) => match sanitized_value(text) {
            Ok(value) => Walk::leaf(path, value),
            Err(fault) => Walk::failed(fault),
        },
        JsonTree::Array(items) => walk_items(items, path, root, 0),
        JsonTree::Object(members) => walk_members(members, path, root, 0),
    }
}

/// The traversal of the items of an array from index `from` on; `path` and
/// `root` are those of the array.
pub open spec fn walk_items(
    items: Seq<JsonTree>,
    path: Seq<char>,
    root: bool,
    from: nat,
) -> Walk
    decreases items, items.len() - from,
{
    if from >= items.len() {
        Walk::nothing()
    } else {
        walk(items[from as int], child_path(path, root, decimal(from)), false).followed_by(
            walk_items(items, path, root, from + 1),
        )
    }
}

/// The traversal of the members of an object from position `from` on; `path`
/// and `root` are those of the object.
pub open spec fn walk_members(
    members: Seq<(Seq<char>, JsonTree)>,
    path: Seq<char>,
    root: bool,
    from: nat,
) -> Walk
    decreases members, members.len() - from,
{
    if from >= members.len() {
        Walk::nothing()
    } else {
        match sanitized_key(members[from as int].0) {
            Ok(name) => walk(members[from as int].1, child_path(path, root, name), false).followed_by(
                walk_members(members, path, root, from + 1),
            ),
            Err(fault) => Walk::failed(fault),
        }
    }
}

/// Traversals in a row may be grouped either way.
proof fn lemma_followed_by_associative(a: Walk, b: Walk, c: Walk)
    ensures
        a.followed_by(b).followed_by(c) == a.followed_by(b.followed_by(c)),
{
    assert((a.entries + b.entries) + c.entries =~= a.entries + (b.entries + c.entries));
}

/// Puts one entry into `result` for each leaf of `value`, whose own path is
/// `prefix`, and stops at the first key or string that cannot be sanitized.
/// With an empty `prefix` the value is the root of a document.
///
/// The entries of the leaves met before a failure stay in `result`.
pub fn flatten_json(value: &Json, prefix: String, result: &mut KeyValues) -> (r: Result<(), ConvertError>)
    requires
        old(result).wf(),
    ensures
        final(result).wf(),
        final(result)@ == with_entries(
            old(result)@,
            walk(value@, prefix@, prefix@.len() == 0).entries,
        ),
        match walk(value@, prefix@, prefix@.len() == 0).failure {
            None => r is Ok,
            Some(fault) => r matches Err(e) && e@ == fault,
        },
{
    let root = prefix.as_str().is_empty();
    flatten_at(value, prefix, root, result)
}

/// Puts one entry into `result` for each leaf of `value`, whose own path is
/// `path`; `root` says whether the value is the root of a document. Stops at
/// the first key or string that cannot be sanitized.
///
/// The entries of the leaves met before a failure stay in `result`.
#[verifier::loop_isolation(false)]
pub fn flatten_at(value: &Json, path: String, root: bool, result: &mut KeyValues) -> (r: Result<
    (),
    ConvertError,
>)
    requires
        old(result).wf(),
    ensures
        final(result).wf(),
        final(result)@ == with_entries(old(result)@, walk(value@, path@, root).entries),
        match walk(value@, path@, root).failure {
            None => r is Ok,
            Some(fault) => r matches Err(e) && e@ == fault,
        },
    decreases value,
{
    match value {
        Json::Null => {
            proof {
                lemma_with_one_entry(result@, (path@, "null"@));
            }
            result.insert(path, "null".to_owned());
            Ok(())
        },
        Json::Bool(b) => {
            proof {
                lemma_with_one_entry(result@, (path@, "true"@));
                lemma_with_one_entry(result@, (path@, "false"@));
            }
            let text = if *b {
                "true".to_owned()
            } else {
                "false".to_owned()
            };
            result.insert(path, text);
            Ok(())
        },
        Json::Number(digits) => {
            proof {
                lemma_with_one_entry(result@, (path@, digits@));
            }
            result.insert(path, digits.clone());
            Ok(())
        },
        Json::Text(text) => match sanitize_value(text.as_str()) {
            Ok(clean) => {
                proof {
                    lemma_with_one_entry(result@, (path@, clean@));
                }
                result.insert(path, clean);
                Ok(())
            },
            Err(e) => Err(e),
        },
        Json::Array(items) => {
            let ghost trees = value@->Array_0;
            proof {
                lemma_array_view(*value);
            }
            let ghost mut done = Walk::nothing();
            let mut i: usize = 0;
            assert(done.followed_by(walk_items(trees, path@, root, 0)) == walk_items(trees, path@, root, 0))
                by {
                assert(done.entries + walk_items(trees, path@, root, 0).entries =~= walk_items(
                    trees,
                    path@,
                    root,
                    0,
                ).entries);
            }
            while i < items.len()
                invariant
                    i <= items.len(),
                    result.wf(),
                    done.failure is None,
                    result@ == with_entries(old(result)@, done.entries),
                    done.followed_by(walk_items(trees, path@, root, i as nat)) == walk_items(
                        trees,
                        path@,
                        root,
                        0,
                    ),
                decreases items.len() - i,
            {
                let segment = decimal_text(i);
                let child = join_path(path.as_str(), root, segment.as_str());
                let ghost step = walk(trees[i as int], child@, false);
                let ghost rest = walk_items(trees, path@, root, (i + 1) as nat);
                proof {
                    assert(trees[i as int] == items@[i as int]@);
                    lemma_followed_by_associative(done, step, rest);
                    lemma_with_entries_concat(old(result)@, done.entries, step.entries);
                }
                let outcome = flatten_at(&items[i], child, false, result);
                proof {
                    done = done.followed_by(step);
                }
                if let Err(e) = outcome {
                    return Err(e);
                }
                i += 1;
            }
            Ok(())
        },
        Json::Object(members) => {
            let ghost trees = value@->Object_0;
            proof {
                lemma_object_view(*value);
            }
            let ghost mut done = Walk::nothing();
            let mut i: usize = 0;
            assert(done.followed_by(walk_members(trees, path@, root, 0)) == walk_members(
                trees,
                path@,
                root,
                0,
            )) by {
                assert(done.entries + walk_members(trees, path@, root, 0).entries =~= walk_members(
                    trees,
                    path@,
                    root,
                    0,
                ).entries);
            }
            while i < members.len()
                invariant
                    i <= members.len(),
                    result.wf(),
                    done.failure is None,
                    result@ == with_entries(old(result)@, done.entries),
                    done.followed_by(walk_members(trees, path@, root, i as nat)) == walk_members(
                        trees,
                        path@,
                        root,
                        0,
                    ),
                decreases members.len() - i,
            {
                let ghost rest = walk_members(trees, path@, root, (i + 1) as nat);
                proof {
                    assert(trees[i as int] == (members@[i as int].0@, members@[i as int].1@));
                }
                match sanitize_key(members[i].0.as_str()) {
                    Ok(segment) => {
                        let child = join_path(path.as_str(), root, segment.as_str());
                        let ghost step = walk(trees[i as int].1, child@, false);
                        proof {
                            lemma_followed_by_associative(done, step, rest);
                            lemma_with_entries_concat(old(result)@, done.entries, step.entries);
                        }
                        let outcome = flatten_at(&members[i].1, child, false, result);
                        proof {
                            done = done.followed_by(step);
                        }
                        if let Err(e) = outcome {
                            return Err(e);
                        }
                    },
                    Err(e) => {
                        proof {
                            assert(done.entries + Seq::<Entry>::empty() =~= done.entries);
                        }
                        return Err(e);
                    },
                }
                i += 1;
            }
            Ok(())
        },
    }
}

/// What flattening a whole document gives: the mapping from the path of each
/// leaf to its text, or the first failure met.
pub open spec fn flattened(document: JsonTree) -> Result<Map<Seq<char>, Seq<char>>, Fault> {
    let walked = walk(document, Seq::empty(), true);
    match walked.failure {
        Some(fault) => Err(fault),
        None => Ok(with_entries(Map::empty(), walked.entries)),
    }
}

/// Flattens a whole document.
pub fn flatten(document: &Json) -> (r: Result<KeyValues, ConvertError>)
    ensures
        match flattened(document@) {
            Ok(map) => r matches Ok(output) && output.wf() && output@ == map,
            Err(fault) => r matches Err(e) && e@ == fault,
        },
{
    let mut output = KeyValues::new();
    match flatten_at(document, String::new(), true, &mut output) {
        Ok(()) => Ok(output),
        Err(e) => Err(e),
    }
}

} // verus!
