//! Flattening what was flattened before gives the same entries again.

use vstd::prelude::*;
use crate::entries::{
    keys_ascending, lemma_ascending_distinct, lemma_ascending_entries, with_entries, Entry,
};
use crate::error::Fault;
use crate::flatten::{flattened, walk, walk_items, walk_members, Walk};
use crate::json::JsonTree;
use crate::path::{child_path, decimal};
use crate::sanitize::{
    key_clean, lemma_clean_key_kept, lemma_plain_value_kept, lemma_sanitized_key_clean,
    lemma_sanitized_value_plain, sanitized_key, value_plain,
};

verus! {

/// Each of `entries` has a clean key and a plain value.
pub open spec fn entries_clean(entries: Seq<Entry>) -> bool {
    forall|i: int|
        0 <= i < entries.len() ==> key_clean((#[trigger] entries[i]).0) && value_plain(
            entries[i].1,
        )
}

/// The members that stand for `entries`: each named by the key, each value a
/// string.
pub open spec fn as_members(entries: Seq<Entry>) -> Seq<(Seq<char>, JsonTree)> {
    entries.map_values(|entry: Entry| (entry.0, JsonTree::Text(entry.1)))
}

/// The entries read back as a document: one object with a member for each.
pub open spec fn as_document(entries: Seq<Entry>) -> JsonTree {
    JsonTree::Object(as_members(entries))
}

proof fn lemma_decimal_clean(n: nat)
    ensures
        key_clean(decimal(n)),
    decreases n,
{
    if n >= 10 {
        lemma_decimal_clean(n / 10);
    }
}

proof fn lemma_child_path_clean(parent: Seq<char>, root: bool, segment: Seq<char>)
    requires
        key_clean(parent),
        key_clean(segment),
    ensures
        key_clean(child_path(parent, root, segment)),
{
}

/// Whatever a traversal yields has clean keys and plain values, as long as
/// the path it starts from is clean.
proof fn lemma_walk_clean(tree: JsonTree, path: Seq<char>, root: bool)
    requires
        tree.wf(),
        key_clean(path),
    ensures
        entries_clean(walk(tree, path, root).entries),
    decreases tree, 0nat,
{
    reveal_strlit("null");
    reveal_strlit("true");
    reveal_strlit("false");
    match tree {
        JsonTree::Text(text) => lemma_sanitized_value_plain(text),
        JsonTree::Array(items) => lemma_walk_items_clean(items, path, root, 0),
        JsonTree::Object(members) => lemma_walk_members_clean(members, path, root, 0),
        _ => {},
    }
}

proof fn lemma_walk_items_clean(items: Seq<JsonTree>, path: Seq<char>, root: bool, from: nat)
    requires
        forall|i: int| 0 <= i < items.len() ==> (#[trigger] items[i]).wf(),
        key_clean(path),
    ensures
        entries_clean(walk_items(items, path, root, from).entries),
    decreases items, items.len() - from,
{
    if from < items.len() {
        lemma_decimal_clean(from);
        lemma_child_path_clean(path, root, decimal(from));
        lemma_walk_clean(items[from as int], child_path(path, root, decimal(from)), false);
        lemma_walk_items_clean(items, path, root, from + 1);
    }
}

proof fn lemma_walk_members_clean(
    members: Seq<(Seq<char>, JsonTree)>,
    path: Seq<char>,
    root: bool,
    from: nat,
)
    requires
        forall|i: int| 0 <= i < members.len() ==> (#[trigger] members[i]).1.wf(),
        key_clean(path),
    ensures
        entries_clean(walk_members(members, path, root, from).entries),
    decreases members, members.len() - from,
{
    if from < members.len() {
        lemma_sanitized_key_clean(members[from as int].0);
        if let Ok(name) = sanitized_key(members[from as int].0) {
            lemma_child_path_clean(path, root, name);
            lemma_walk_clean(members[from as int].1, child_path(path, root, name), false);
            lemma_walk_members_clean(members, path, root, from + 1);
        }
    }
}

/// Whatever a mapping holds under a key was in it before or is one of the
/// entries put into it.
pub proof fn lemma_with_entries_source(
    base: Map<Seq<char>, Seq<char>>,
    entries: Seq<Entry>,
    key: Seq<char>,
)
    requires
        with_entries(base, entries).contains_key(key),
    ensures
        (base.contains_key(key) && with_entries(base, entries)[key] == base[key]) || exists|
            i: int,
        |
            0 <= i < entries.len() && #[trigger] entries[i] == (
                key,
                with_entries(base, entries)[key],
            ),
    decreases entries.len(),
{
    if entries.len() > 0 {
        let front = entries.drop_last();
        if entries.last().0 == key {
            assert(entries[entries.len() - 1] == (key, with_entries(base, entries)[key]));
        } else {
            lemma_with_entries_source(base, front, key);
            if !(base.contains_key(key) && with_entries(base, front)[key] == base[key]) {
                let i = choose|i: int|
                    0 <= i < front.len() && #[trigger] front[i] == (
                        key,
                        with_entries(base, front)[key],
                    );
                assert(entries[i] == front[i]);
            }
        }
    }
}

/// Clean entries, read back as a document, are traversed as they stand.
proof fn lemma_walk_as_members(entries: Seq<Entry>, from: nat)
    requires
        entries_clean(entries),
        from <= entries.len(),
    ensures
        walk_members(as_members(entries), Seq::empty(), true, from) == (Walk {
            entries: entries.skip(from as int),
            failure: None,
        }),
    decreases entries.len() - from,
{
    let members = as_members(entries);
    if from < entries.len() {
        let entry = entries[from as int];
        assert(members[from as int] == (entry.0, JsonTree::Text(entry.1)));
        lemma_clean_key_kept(entry.0);
        lemma_plain_value_kept(entry.1);
        lemma_walk_as_members(entries, from + 1);
        assert(child_path(Seq::empty(), true, entry.0) == entry.0);
        assert(walk(JsonTree::Text(entry.1), entry.0, false) == Walk::leaf(entry.0, entry.1));
        assert(seq![entry] + entries.skip(from as int + 1) =~= entries.skip(from as int));
    } else {
        assert(entries.skip(from as int) =~= Seq::<Entry>::empty());
    }
}

/// What a document flattens to has clean keys and plain values.
pub proof fn lemma_output_clean(document: JsonTree, entries: Seq<Entry>)
    requires
        document.wf(),
        keys_ascending(entries),
        flattened(document) == Ok::<Map<Seq<char>, Seq<char>>, Fault>(
            with_entries(Map::empty(), entries),
        ),
    ensures
        entries_clean(entries),
{
    let walked = walk(document, Seq::empty(), true);
    let map = with_entries(Map::empty(), entries);
    lemma_walk_clean(document, Seq::empty(), true);
    lemma_ascending_entries(entries);
    assert forall|i: int| 0 <= i < entries.len() implies key_clean((#[trigger] entries[i]).0)
        && value_plain(entries[i].1) by {
        let key = entries[i].0;
        assert(map.contains_key(key));
        assert(map[key] == entries[i].1);
        lemma_with_entries_source(Map::empty(), walked.entries, key);
        let j = choose|j: int|
            0 <= j < walked.entries.len() && #[trigger] walked.entries[j] == (key, map[key]);
        assert(key_clean(walked.entries[j].0));
    }
}

/// Flattening is idempotent: where a document flattens to a mapping, the
/// entries of that mapping, read back as a document, flatten to the same
/// mapping again.
///
/// `entries` are the entries of the mapping in key order, as a
/// [`crate::entries::KeyValues`] keeps them.
pub proof fn lemma_flatten_idempotent(document: JsonTree, entries: Seq<Entry>)
    requires
        document.wf(),
        keys_ascending(entries),
        flattened(document) == Ok::<Map<Seq<char>, Seq<char>>, Fault>(
            with_entries(Map::empty(), entries),
        ),
    ensures
        as_document(entries).wf(),
        flattened(as_document(entries)) == flattened(document),
{
    lemma_output_clean(document, entries);
    lemma_walk_as_members(entries, 0);
    assert(entries.skip(0) =~= entries);
    let members = as_members(entries);
    lemma_ascending_distinct(entries);
    assert forall|i: int, j: int| 0 <= i < j < members.len() implies (#[trigger] members[i]).0 != (
        #[trigger] members[j]).0 by {
        assert(entries[i].0 != entries[j].0);
    }
    assert forall|i: int| 0 <= i < members.len() implies (#[trigger] members[i]).1.wf() by {
        assert(members[i].1 == JsonTree::Text(entries[i].1));
    }
}

} // verus!
