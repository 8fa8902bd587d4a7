//! Rebuilding a nested document from flattened entries by splitting their
//! keys at the dots, and flattening it again.

use vstd::prelude::*;
use crate::entries::{
    keys_ascending, lemma_ascending_distinct, lemma_ascending_entries, with_entries, Entry,
};
use crate::error::Fault;
use crate::flatten::{flattened, walk, walk_members, Walk};
use crate::idempotence::{entries_clean, lemma_output_clean, lemma_with_entries_source};
use crate::json::{names_distinct, JsonTree};
use crate::path::child_path;
use crate::sanitize::{
    key_clean, lemma_clean_key_kept, lemma_plain_value_kept, value_plain,
};

verus! {

/// The segments of a path, from the root down.
pub type Segments = Seq<Seq<char>>;

/// The segments of a key: the stretches between its dots. A key without a
/// dot is one segment; the empty key is one empty segment.
pub open spec fn split(key: Seq<char>) -> Segments
    decreases key.len(),
{
    if key.len() == 0 {
        seq![Seq::empty()]
    } else {
        let rest = split(key.skip(1));
        if key[0] == '.' {
            seq![Seq::<char>::empty()] + rest
        } else {
            rest.update(0, seq![key[0]] + rest[0])
        }
    }
}

/// The segments written one after the other with a dot between them.
pub open spec fn joined(segments: Segments) -> Seq<char>
    decreases segments.len(),
{
    if segments.len() == 0 {
        Seq::empty()
    } else if segments.len() == 1 {
        segments[0]
    } else {
        segments[0] + seq!['.'] + joined(segments.skip(1))
    }
}

/// The path reached from `path` by going down through `segments`; `root`
/// says whether `path` is that of the root.
pub open spec fn descend(path: Seq<char>, root: bool, segments: Segments) -> Seq<char>
    decreases segments.len(),
{
    if segments.len() == 0 {
        path
    } else {
        descend(child_path(path, root, segments[0]), false, segments.skip(1))
    }
}

/// A key has at least one segment, and its segments joined give the key back.
pub proof fn lemma_split_joined(key: Seq<char>)
    ensures
        split(key).len() >= 1,
        joined(split(key)) == key,
    decreases key.len(),
{
    if key.len() > 0 {
        let tail = key.skip(1);
        lemma_split_joined(tail);
        let rest = split(tail);
        if key[0] == '.' {
            let all = seq![Seq::<char>::empty()] + rest;
            assert(all.skip(1) =~= rest);
            assert(all[0] =~= Seq::<char>::empty());
            assert(Seq::<char>::empty() + seq!['.'] + tail =~= key);
        } else {
            let first = seq![key[0]] + rest[0];
            let all = rest.update(0, first);
            if rest.len() == 1 {
                assert(first =~= key);
            } else {
                assert(all.skip(1) =~= rest.skip(1));
                assert(first + seq!['.'] + joined(rest.skip(1)) =~= seq![key[0]] + (rest[0]
                    + seq!['.'] + joined(rest.skip(1))));
                assert(seq![key[0]] + tail =~= key);
            }
        }
    } else {
        assert(split(key)[0] =~= key);
    }
}

/// Going down from a place that is not the root appends a dot and the
/// segments joined.
pub proof fn lemma_descend_joined(path: Seq<char>, segments: Segments)
    requires
        segments.len() >= 1,
    ensures
        descend(path, false, segments) == path + seq!['.'] + joined(segments),
    decreases segments.len(),
{
    let below = child_path(path, false, segments[0]);
    let rest = segments.skip(1);
    if rest.len() == 0 {
        assert(descend(below, false, rest) == below);
    } else {
        lemma_descend_joined(below, rest);
        assert(below + seq!['.'] + joined(rest) =~= path + seq!['.'] + (segments[0] + seq!['.']
            + joined(rest)));
    }
}

/// Going down from the root through the segments of a key leads to the key.
pub proof fn lemma_descend_split(key: Seq<char>)
    ensures
        descend(Seq::empty(), true, split(key)) == key,
{
    lemma_split_joined(key);
    let segments = split(key);
    let rest = segments.skip(1);
    if rest.len() == 0 {
        assert(descend(segments[0], false, rest) == segments[0]);
    } else {
        lemma_descend_joined(segments[0], rest);
    }
}

/// The segments of a clean key are clean.
pub proof fn lemma_split_clean(key: Seq<char>)
    requires
        key_clean(key),
    ensures
        forall|i: int| 0 <= i < split(key).len() ==> key_clean(#[trigger] split(key)[i]),
    decreases key.len(),
{
    if key.len() > 0 {
        let tail = key.skip(1);
        lemma_split_joined(tail);
        lemma_split_clean(tail);
    }
}

/// `tree` holds the string `value` at the end of `segments`: the names of
/// the members to go through, from `tree` down.
pub open spec fn leaf_at(tree: JsonTree, segments: Segments, value: Seq<char>) -> bool
    decreases segments.len(),
{
    match tree {
        JsonTree::Text(text) => segments.len() == 0 && text == value,
        JsonTree::Object(members) => segments.len() > 0 && exists|i: int|
            0 <= i < members.len() && (#[trigger] members[i]).0 == segments[0] && leaf_at(
                members[i].1,
                segments.skip(1),
                value,
            ),
        _ => false,
    }
}

/// Member `i` of `members` is named by the first of `segments` and holds the
/// string `value` at the end of the others.
pub open spec fn member_leads(
    members: Seq<(Seq<char>, JsonTree)>,
    i: int,
    segments: Segments,
    value: Seq<char>,
) -> bool {
    &&& segments.len() > 0
    &&& 0 <= i < members.len()
    &&& members[i].0 == segments[0]
    &&& leaf_at(members[i].1, segments.skip(1), value)
}

/// The place of a member that leads to the string, where there is one.
pub open spec fn leading_member(
    members: Seq<(Seq<char>, JsonTree)>,
    segments: Segments,
    value: Seq<char>,
) -> int {
    choose|i: int|
        0 <= i < members.len() && (#[trigger] members[i]).0 == segments[0] && leaf_at(
            members[i].1,
            segments.skip(1),
            value,
        )
}

/// A string that a member leads to is held by the object.
proof fn lemma_leaf_through(
    members: Seq<(Seq<char>, JsonTree)>,
    i: int,
    segments: Segments,
    value: Seq<char>,
)
    requires
        member_leads(members, i, segments, value),
    ensures
        leaf_at(JsonTree::Object(members), segments, value),
{
    let tree = JsonTree::Object(members);
    assert(tree->Object_0[i] == members[i]);
}

/// A string held by an object is reached through one of its members.
proof fn lemma_leading_member(
    members: Seq<(Seq<char>, JsonTree)>,
    segments: Segments,
    value: Seq<char>,
)
    requires
        leaf_at(JsonTree::Object(members), segments, value),
    ensures
        member_leads(members, leading_member(members, segments, value), segments, value),
{
}

/// The objects, one in the other, that hold the string `value` at the end of
/// `segments` and nothing else.
pub open spec fn chain(segments: Segments, value: Seq<char>) -> JsonTree
    decreases segments.len(),
{
    if segments.len() == 0 {
        JsonTree::Text(value)
    } else {
        JsonTree::Object(seq![(segments[0], chain(segments.skip(1), value))])
    }
}

/// One of `members` has the name `name`.
pub open spec fn has_member(members: Seq<(Seq<char>, JsonTree)>, name: Seq<char>) -> bool {
    exists|i: int| 0 <= i < members.len() && (#[trigger] members[i]).0 == name
}

/// The place of a member with the name `name`.
pub open spec fn member_index(members: Seq<(Seq<char>, JsonTree)>, name: Seq<char>) -> int {
    choose|i: int| 0 <= i < members.len() && (#[trigger] members[i]).0 == name
}

/// `tree` with the string `value` put at the end of `segments`: the objects
/// on the way are gone through where they exist and made where they do not.
pub open spec fn put(tree: JsonTree, segments: Segments, value: Seq<char>) -> JsonTree
    decreases segments.len(),
{
    if segments.len() == 0 {
        JsonTree::Text(value)
    } else {
        match tree {
            JsonTree::Object(members) => if has_member(members, segments[0]) {
                let i = member_index(members, segments[0]);
                JsonTree::Object(
                    members.update(i, (segments[0], put(members[i].1, segments.skip(1), value))),
                )
            } else {
                JsonTree::Object(members.push((segments[0], chain(segments.skip(1), value))))
            },
            _ => chain(segments, value),
        }
    }
}

/// `tree` is made of objects and strings alone, with clean names that differ
/// within each object, and plain strings.
pub open spec fn is_trie(tree: JsonTree) -> bool
    decreases tree,
{
    match tree {
        JsonTree::Text(text) => value_plain(text),
        JsonTree::Object(members) => {
            &&& names_distinct(members)
            &&& forall|i: int|
                0 <= i < members.len() ==> key_clean((#[trigger] members[i]).0) && is_trie(
                    members[i].1,
                )
        },
        _ => false,
    }
}

/// Each of `segments` is clean.
pub open spec fn segments_clean(segments: Segments) -> bool {
    forall|i: int| 0 <= i < segments.len() ==> key_clean(#[trigger] segments[i])
}

/// `a` is the beginning of `b`, or all of it.
pub open spec fn is_prefix(a: Segments, b: Segments) -> bool {
    &&& a.len() <= b.len()
    &&& forall|i: int| 0 <= i < a.len() ==> a[i] == b[i]
}

/// No string of `tree` lies on the way to `segments`, at its end or below it.
pub open spec fn free_for(tree: JsonTree, segments: Segments) -> bool {
    forall|q: Segments, v: Seq<char>| #[trigger]
        leaf_at(tree, q, v) ==> !is_prefix(q, segments) && !is_prefix(segments, q)
}

proof fn lemma_prefix_below(a: Segments, b: Segments)
    requires
        a.len() > 0,
        b.len() > 0,
        a[0] == b[0],
    ensures
        is_prefix(a, b) <==> is_prefix(a.skip(1), b.skip(1)),
{
    if is_prefix(a, b) {
        assert forall|i: int| 0 <= i < a.skip(1).len() implies a.skip(1)[i] == b.skip(1)[i] by {
            assert(a[i + 1] == b[i + 1]);
        }
    }
    if is_prefix(a.skip(1), b.skip(1)) {
        assert forall|i: int| 0 <= i < a.len() implies a[i] == b[i] by {
            if i > 0 {
                assert(a.skip(1)[i - 1] == b.skip(1)[i - 1]);
            }
        }
    }
}

proof fn lemma_first_and_rest(a: Segments, b: Segments)
    requires
        a.len() > 0,
        b.len() > 0,
        a[0] == b[0],
        a.skip(1) == b.skip(1),
    ensures
        a == b,
{
    assert(a.len() == a.skip(1).len() + 1);
    assert(b.len() == b.skip(1).len() + 1);
    assert forall|i: int| 0 <= i < a.len() implies a[i] == b[i] by {
        if i > 0 {
            assert(a[i] == a.skip(1)[i - 1]);
            assert(b[i] == b.skip(1)[i - 1]);
        }
    }
    assert(a =~= b);
}

/// A chain holds its string at the end of its segments and nothing else.
proof fn lemma_chain(segments: Segments, value: Seq<char>)
    requires
        segments_clean(segments),
        value_plain(value),
    ensures
        is_trie(chain(segments, value)),
        leaf_at(chain(segments, value), segments, value),
        forall|q: Segments, v: Seq<char>| #[trigger]
            leaf_at(chain(segments, value), q, v) ==> q == segments && v == value,
    decreases segments.len(),
{
    let tree = chain(segments, value);
    if segments.len() > 0 {
        let rest = segments.skip(1);
        let below = chain(rest, value);
        let members = seq![(segments[0], below)];
        assert(segments_clean(rest)) by {
            assert forall|i: int| 0 <= i < rest.len() implies key_clean(#[trigger] rest[i]) by {
                assert(rest[i] == segments[i + 1]);
            }
        }
        lemma_chain(rest, value);
        assert(tree == JsonTree::Object(members));
        assert(members[0] == (segments[0], below));
        assert(member_leads(members, 0, segments, value));
        lemma_leaf_through(members, 0, segments, value);
        assert forall|q: Segments, v: Seq<char>| #[trigger]
            leaf_at(tree, q, v) implies q == segments && v == value by {
            lemma_leading_member(members, q, v);
            assert(leaf_at(below, q.skip(1), v));
            lemma_first_and_rest(q, segments);
        }
    } else {
        assert forall|q: Segments, v: Seq<char>| #[trigger]
            leaf_at(tree, q, v) implies q == segments && v == value by {
            assert(q =~= segments);
        }
    }
}

/// What holds of each member of a trie.
proof fn lemma_trie_member(members: Seq<(Seq<char>, JsonTree)>, i: int)
    requires
        is_trie(JsonTree::Object(members)),
        0 <= i < members.len(),
    ensures
        names_distinct(members),
        key_clean(members[i].0),
        is_trie(members[i].1),
{
    let tree = JsonTree::Object(members);
    assert(tree->Object_0[i] == members[i]);
}

/// The rest of clean segments is clean.
proof fn lemma_rest_clean(segments: Segments)
    requires
        segments_clean(segments),
        segments.len() > 0,
    ensures
        segments_clean(segments.skip(1)),
        key_clean(segments[0]),
{
    let rest = segments.skip(1);
    assert forall|i: int| 0 <= i < rest.len() implies key_clean(#[trigger] rest[i]) by {
        assert(rest[i] == segments[i + 1]);
    }
}

/// Where nothing of a tree is in the way of the segments, nothing of the
/// member named by the first of them is in the way of the others.
proof fn lemma_free_below(members: Seq<(Seq<char>, JsonTree)>, i: int, segments: Segments)
    requires
        free_for(JsonTree::Object(members), segments),
        segments.len() > 0,
        0 <= i < members.len(),
        members[i].0 == segments[0],
    ensures
        free_for(members[i].1, segments.skip(1)),
{
    let tree = JsonTree::Object(members);
    let rest = segments.skip(1);
    assert forall|q: Segments, v: Seq<char>| #[trigger]
        leaf_at(members[i].1, q, v) implies !is_prefix(q, rest) && !is_prefix(rest, q) by {
        let longer = seq![segments[0]] + q;
        assert(longer.skip(1) =~= q);
        assert(member_leads(members, i, longer, v));
        lemma_leaf_through(members, i, longer, v);
        assert(leaf_at(tree, longer, v));
        lemma_prefix_below(longer, segments);
        lemma_prefix_below(segments, longer);
    }
}

/// Putting a string where nothing is in the way adds that string and
/// changes nothing else.
proof fn lemma_put(tree: JsonTree, segments: Segments, value: Seq<char>)
    requires
        is_trie(tree),
        segments_clean(segments),
        value_plain(value),
        free_for(tree, segments),
    ensures
        is_trie(put(tree, segments, value)),
        put(tree, segments, value) is Object || segments.len() == 0,
        leaf_at(put(tree, segments, value), segments, value),
        forall|q: Segments, v: Seq<char>| #[trigger]
            leaf_at(tree, q, v) ==> leaf_at(put(tree, segments, value), q, v),
        forall|q: Segments, v: Seq<char>| #[trigger]
            leaf_at(put(tree, segments, value), q, v) ==> leaf_at(tree, q, v) || (q == segments
                && v == value),
    decreases segments.len(),
{
    let after = put(tree, segments, value);
    if segments.len() == 0 {
        assert forall|q: Segments, v: Seq<char>| #[trigger] leaf_at(tree, q, v) implies leaf_at(
            after,
            q,
            v,
        ) by {
            assert(is_prefix(segments, q));
        }
        assert forall|q: Segments, v: Seq<char>| #[trigger]
            leaf_at(after, q, v) implies leaf_at(tree, q, v) || (q == segments && v == value) by {
            assert(q =~= segments);
        }
    } else {
        let name = segments[0];
        let rest = segments.skip(1);
        lemma_rest_clean(segments);
        match tree {
            JsonTree::Text(text) => {
                assert(leaf_at(tree, Seq::empty(), text));
                assert(is_prefix(Seq::empty(), segments));
            },
            JsonTree::Object(members) => {
                if has_member(members, name) {
                    let i = member_index(members, name);
                    let below = members[i].1;
                    let below_after = put(below, rest, value);
                    let members_after = members.update(i, (name, below_after));
                    assert(after == JsonTree::Object(members_after));
                    lemma_trie_member(members, i);
                    lemma_free_below(members, i, segments);
                    lemma_put(below, rest, value);
                    assert forall|j: int| 0 <= j < members_after.len() implies key_clean(
                        (#[trigger] members_after[j]).0,
                    ) && is_trie(members_after[j].1) by {
                        if j != i {
                            lemma_trie_member(members, j);
                        }
                    }
                    assert forall|j: int, k: int|
                        0 <= j < k < members_after.len() implies (#[trigger] members_after[j]).0
                        != (#[trigger] members_after[k]).0 by {
                        assert(members_after[j].0 == members[j].0);
                        assert(members_after[k].0 == members[k].0);
                    }
                    assert(member_leads(members_after, i, segments, value));
                    lemma_leaf_through(members_after, i, segments, value);
                    assert forall|q: Segments, v: Seq<char>| #[trigger]
                        leaf_at(tree, q, v) implies leaf_at(after, q, v) by {
                        lemma_leading_member(members, q, v);
                        let j = leading_member(members, q, v);
                        if j == i {
                            assert(leaf_at(below_after, q.skip(1), v));
                        }
                        assert(member_leads(members_after, j, q, v));
                        lemma_leaf_through(members_after, j, q, v);
                    }
                    assert forall|q: Segments, v: Seq<char>| #[trigger]
                        leaf_at(after, q, v) implies leaf_at(tree, q, v) || (q == segments && v
                        == value) by {
                        lemma_leading_member(members_after, q, v);
                        let j = leading_member(members_after, q, v);
                        if j == i {
                            if leaf_at(below, q.skip(1), v) {
                                assert(member_leads(members, i, q, v));
                                lemma_leaf_through(members, i, q, v);
                            } else {
                                lemma_first_and_rest(q, segments);
                            }
                        } else {
                            assert(member_leads(members, j, q, v));
                            lemma_leaf_through(members, j, q, v);
                        }
                    }
                } else {
                    let below_after = chain(rest, value);
                    let members_after = members.push((name, below_after));
                    let last = members.len() as int;
                    assert(after == JsonTree::Object(members_after));
                    lemma_chain(rest, value);
                    assert forall|j: int| 0 <= j < members_after.len() implies key_clean(
                        (#[trigger] members_after[j]).0,
                    ) && is_trie(members_after[j].1) by {
                        if j != last {
                            lemma_trie_member(members, j);
                        }
                    }
                    if members.len() > 0 {
                        lemma_trie_member(members, 0);
                    }
                    assert forall|j: int, k: int|
                        0 <= j < k < members_after.len() implies (#[trigger] members_after[j]).0
                        != (#[trigger] members_after[k]).0 by {
                        assert(members_after[j].0 == members[j].0);
                        if k != last {
                            assert(members_after[k].0 == members[k].0);
                        }
                    }
                    assert(member_leads(members_after, last, segments, value));
                    lemma_leaf_through(members_after, last, segments, value);
                    assert forall|q: Segments, v: Seq<char>| #[trigger]
                        leaf_at(tree, q, v) implies leaf_at(after, q, v) by {
                        lemma_leading_member(members, q, v);
                        let j = leading_member(members, q, v);
                        assert(member_leads(members_after, j, q, v));
                        lemma_leaf_through(members_after, j, q, v);
                    }
                    assert forall|q: Segments, v: Seq<char>| #[trigger]
                        leaf_at(after, q, v) implies leaf_at(tree, q, v) || (q == segments && v
                        == value) by {
                        lemma_leading_member(members_after, q, v);
                        let j = leading_member(members_after, q, v);
                        if j == last {
                            lemma_first_and_rest(q, segments);
                        } else {
                            assert(member_leads(members, j, q, v));
                            lemma_leaf_through(members, j, q, v);
                        }
                    }
                }
            },
            _ => {},
        }
    }
}

/// The document rebuilt from `entries`: nested objects that hold, for each
/// entry, its value as a string at the end of the segments of its key.
pub open spec fn rebuilt(entries: Seq<Entry>) -> JsonTree
    decreases entries.len(),
{
    if entries.len() == 0 {
        JsonTree::Object(Seq::empty())
    } else {
        put(rebuilt(entries.drop_last()), split(entries.last().0), entries.last().1)
    }
}

/// `a` is the beginning of `b`, and `b` goes on.
pub open spec fn is_proper_prefix(a: Segments, b: Segments) -> bool {
    is_prefix(a, b) && a.len() < b.len()
}

/// No key of `entries` is, segment by segment, the beginning of a longer
/// one: no place is asked to hold both a value and members.
pub open spec fn no_dotted_prefix(entries: Seq<Entry>) -> bool {
    forall|i: int, j: int|
        0 <= i < entries.len() && 0 <= j < entries.len() ==> !is_proper_prefix(
            split((#[trigger] entries[i]).0),
            split((#[trigger] entries[j]).0),
        )
}

/// One of `entries` has a key with the segments `segments` and the value
/// `value`.
pub open spec fn listed(entries: Seq<Entry>, segments: Segments, value: Seq<char>) -> bool {
    exists|j: int|
        0 <= j < entries.len() && split((#[trigger] entries[j]).0) == segments && entries[j].1
            == value
}

/// Segments that begin each other and are equally long are the same.
proof fn lemma_prefix_same_length(a: Segments, b: Segments)
    requires
        is_prefix(a, b),
        a.len() == b.len(),
    ensures
        a == b,
{
    assert(a =~= b);
}

/// Keys with the same segments are the same key.
proof fn lemma_split_injective(a: Seq<char>, b: Seq<char>)
    requires
        split(a) == split(b),
    ensures
        a == b,
{
    lemma_split_joined(a);
    lemma_split_joined(b);
}

/// What is rebuilt holds exactly the listed entries.
proof fn lemma_rebuilt(entries: Seq<Entry>)
    requires
        entries_clean(entries),
        forall|i: int, j: int|
            0 <= i < j < entries.len() ==> (#[trigger] entries[i]).0 != (#[trigger] entries[j]).0,
        no_dotted_prefix(entries),
    ensures
        is_trie(rebuilt(entries)),
        rebuilt(entries) is Object,
        forall|q: Segments, v: Seq<char>| #[trigger]
            leaf_at(rebuilt(entries), q, v) ==> listed(entries, q, v),
        forall|j: int|
            0 <= j < entries.len() ==> leaf_at(
                rebuilt(entries),
                split((#[trigger] entries[j]).0),
                entries[j].1,
            ),
    decreases entries.len(),
{
    let tree = rebuilt(entries);
    if entries.len() == 0 {
        let none = Seq::<(Seq<char>, JsonTree)>::empty();
        assert(tree == JsonTree::Object(none));
        assert forall|q: Segments, v: Seq<char>| #[trigger] leaf_at(tree, q, v) implies listed(
            entries,
            q,
            v,
        ) by {
            lemma_leading_member(none, q, v);
        }
    } else {
        let front = entries.drop_last();
        let last = entries.last();
        let n = front.len() as int;
        let before = rebuilt(front);
        let segments = split(last.0);
        assert(entries[n] == last);
        assert forall|i: int| 0 <= i < front.len() implies key_clean((#[trigger] front[i]).0)
            && value_plain(front[i].1) by {
            assert(front[i] == entries[i]);
        }
        assert forall|i: int, j: int| 0 <= i < j < front.len() implies (#[trigger] front[i]).0 != (
            #[trigger] front[j]).0 by {
            assert(front[i] == entries[i]);
            assert(front[j] == entries[j]);
        }
        assert forall|i: int, j: int|
            0 <= i < front.len() && 0 <= j < front.len() implies !is_proper_prefix(
            split((#[trigger] front[i]).0),
            split((#[trigger] front[j]).0),
        ) by {
            assert(front[i] == entries[i]);
            assert(front[j] == entries[j]);
        }
        lemma_rebuilt(front);
        lemma_split_joined(last.0);
        lemma_split_clean(last.0);
        assert forall|q: Segments, v: Seq<char>| #[trigger] leaf_at(before, q, v) implies !is_prefix(
            q,
            segments,
        ) && !is_prefix(segments, q) by {
            assert(listed(front, q, v));
            let j = choose|j: int|
                0 <= j < front.len() && split((#[trigger] front[j]).0) == q && front[j].1 == v;
            assert(front[j] == entries[j]);
            assert(entries[j].0 != entries[n].0);
            assert(!is_proper_prefix(split(entries[j].0), split(entries[n].0)));
            assert(!is_proper_prefix(split(entries[n].0), split(entries[j].0)));
            if is_prefix(q, segments) {
                lemma_prefix_same_length(q, segments);
                lemma_split_injective(entries[j].0, entries[n].0);
            }
            if is_prefix(segments, q) {
                lemma_prefix_same_length(segments, q);
                lemma_split_injective(entries[j].0, entries[n].0);
            }
        }
        lemma_put(before, segments, last.1);
        assert forall|q: Segments, v: Seq<char>| #[trigger] leaf_at(tree, q, v) implies listed(
            entries,
            q,
            v,
        ) by {
            if leaf_at(before, q, v) {
                assert(listed(front, q, v));
                let j = choose|j: int|
                    0 <= j < front.len() && split((#[trigger] front[j]).0) == q && front[j].1 == v;
                assert(front[j] == entries[j]);
            } else {
                assert(split(entries[n].0) == q && entries[n].1 == v);
            }
        }
        assert forall|j: int| 0 <= j < entries.len() implies leaf_at(
            tree,
            split((#[trigger] entries[j]).0),
            entries[j].1,
        ) by {
            if j < n {
                assert(front[j] == entries[j]);
                assert(leaf_at(before, split(front[j].0), front[j].1));
            }
        }
    }
}

/// The entry is that of a string of `tree`: its key is the path reached by
/// going down to the string, its value the string.
pub open spec fn reached(tree: JsonTree, path: Seq<char>, root: bool, entry: Entry) -> bool {
    exists|q: Segments| #[trigger] leaf_at(tree, q, entry.1) && descend(path, root, q) == entry.0
}

/// Flattening a trie gives an entry for each of its strings and no other,
/// and does not fail.
proof fn lemma_walk_trie(tree: JsonTree, path: Seq<char>, root: bool)
    requires
        is_trie(tree),
    ensures
        walk(tree, path, root).failure is None,
        forall|i: int|
            0 <= i < walk(tree, path, root).entries.len() ==> reached(
                tree,
                path,
                root,
                #[trigger] walk(tree, path, root).entries[i],
            ),
        forall|q: Segments, v: Seq<char>| #[trigger]
            leaf_at(tree, q, v) ==> walk(tree, path, root).entries.contains(
                (descend(path, root, q), v),
            ),
    decreases tree, 0nat,
{
    let walked = walk(tree, path, root);
    match tree {
        JsonTree::Text(text) => {
            lemma_plain_value_kept(text);
            assert(walked == Walk::leaf(path, text));
            assert(leaf_at(tree, Seq::empty(), text));
            assert(descend(path, root, Seq::empty()) == path);
            assert(walked.entries[0] == (path, text));
            assert forall|i: int| 0 <= i < walked.entries.len() implies reached(
                tree,
                path,
                root,
                #[trigger] walked.entries[i],
            ) by {
                let entry = walked.entries[i];
                assert(entry == (path, text));
                assert(leaf_at(tree, Seq::empty(), entry.1));
            }
            assert forall|q: Segments, v: Seq<char>| #[trigger]
                leaf_at(tree, q, v) implies walked.entries.contains((descend(path, root, q), v)) by {
                assert(walked.entries[0] == (descend(path, root, q), v));
            }
        },
        JsonTree::Object(members) => {
            lemma_walk_trie_members(members, path, root, 0);
            assert forall|q: Segments, v: Seq<char>| #[trigger]
                leaf_at(tree, q, v) implies walked.entries.contains((descend(path, root, q), v)) by {
                lemma_leading_member(members, q, v);
                let j = leading_member(members, q, v);
                assert(leaf_at(members[j].1, q.skip(1), v));
            }
        },
        _ => {},
    }
}

proof fn lemma_walk_trie_members(
    members: Seq<(Seq<char>, JsonTree)>,
    path: Seq<char>,
    root: bool,
    from: nat,
)
    requires
        is_trie(JsonTree::Object(members)),
        from <= members.len(),
    ensures
        walk_members(members, path, root, from).failure is None,
        forall|i: int|
            0 <= i < walk_members(members, path, root, from).entries.len() ==> reached(
                JsonTree::Object(members),
                path,
                root,
                #[trigger] walk_members(members, path, root, from).entries[i],
            ),
        forall|j: int, q: Segments, v: Seq<char>|
            from <= j < members.len() && #[trigger] leaf_at(members[j].1, q, v) ==> walk_members(
                members,
                path,
                root,
                from,
            ).entries.contains((descend(child_path(path, root, members[j].0), false, q), v)),
    decreases members, members.len() - from,
{
    let tree = JsonTree::Object(members);
    let walked = walk_members(members, path, root, from);
    if from < members.len() {
        let at = from as int;
        let name = members[at].0;
        let below = child_path(path, root, name);
        lemma_trie_member(members, at);
        lemma_clean_key_kept(name);
        let first = walk(members[at].1, below, false);
        let others = walk_members(members, path, root, from + 1);
        lemma_walk_trie(members[at].1, below, false);
        lemma_walk_trie_members(members, path, root, from + 1);
        assert(walked == first.followed_by(others));
        assert(walked.entries == first.entries + others.entries);
        assert forall|i: int| 0 <= i < walked.entries.len() implies reached(
            tree,
            path,
            root,
            #[trigger] walked.entries[i],
        ) by {
            let entry = walked.entries[i];
            if i < first.entries.len() {
                assert(entry == first.entries[i]);
                assert(reached(members[at].1, below, false, entry));
                let q = choose|q: Segments| #[trigger]
                    leaf_at(members[at].1, q, entry.1) && descend(below, false, q) == entry.0;
                let longer = seq![name] + q;
                assert(longer.skip(1) =~= q);
                assert(member_leads(members, at, longer, entry.1));
                lemma_leaf_through(members, at, longer, entry.1);
                assert(descend(path, root, longer) == entry.0);
            } else {
                assert(entry == others.entries[i - first.entries.len()]);
            }
        }
        assert forall|j: int, q: Segments, v: Seq<char>|
            from <= j < members.len() && #[trigger] leaf_at(
                members[j].1,
                q,
                v,
            ) implies walked.entries.contains(
            (descend(child_path(path, root, members[j].0), false, q), v),
        ) by {
            let wanted = (descend(child_path(path, root, members[j].0), false, q), v);
            if j == at {
                assert(first.entries.contains(wanted));
                let i = choose|i: int| 0 <= i < first.entries.len() && first.entries[i] == wanted;
                assert(walked.entries[i] == wanted);
            } else {
                assert(others.entries.contains(wanted));
                let i = choose|i: int| 0 <= i < others.entries.len() && others.entries[i] == wanted;
                assert(walked.entries[first.entries.len() + i] == wanted);
            }
        }
    }
}

/// A trie is a JSON document.
proof fn lemma_trie_wf(tree: JsonTree)
    requires
        is_trie(tree),
    ensures
        tree.wf(),
    decreases tree,
{
    if let JsonTree::Object(members) = tree {
        assert forall|i: int| 0 <= i < members.len() implies (#[trigger] members[i]).1.wf() by {
            lemma_trie_member(members, i);
            lemma_trie_wf(members[i].1);
        }
        if members.len() > 0 {
            lemma_trie_member(members, 0);
        }
    }
}

/// The key of each entry that was put into a mapping is in the mapping.
proof fn lemma_with_entries_key(base: Map<Seq<char>, Seq<char>>, entries: Seq<Entry>, i: int)
    requires
        0 <= i < entries.len(),
    ensures
        with_entries(base, entries).contains_key(entries[i].0),
    decreases entries.len(),
{
    if i < entries.len() - 1 {
        lemma_with_entries_key(base, entries.drop_last(), i);
    }
}

/// Flattening is idempotent over the nested rebuilding: where a document
/// flattens to a mapping in which no key is, segment by segment, the
/// beginning of a longer one, the nested objects rebuilt from the mapping by
/// splitting its keys at their dots flatten to the same mapping again.
///
/// `entries` are the entries of the mapping in key order, as a
/// [`crate::entries::KeyValues`] keeps them.
pub proof fn lemma_flatten_rebuilt(document: JsonTree, entries: Seq<Entry>)
    requires
        document.wf(),
        keys_ascending(entries),
        flattened(document) == Ok::<Map<Seq<char>, Seq<char>>, Fault>(
            with_entries(Map::empty(), entries),
        ),
        no_dotted_prefix(entries),
    ensures
        rebuilt(entries).wf(),
        flattened(rebuilt(entries)) == flattened(document),
{
    let tree = rebuilt(entries);
    let first = with_entries(Map::empty(), entries);
    lemma_output_clean(document, entries);
    lemma_ascending_distinct(entries);
    lemma_ascending_entries(entries);
    lemma_rebuilt(entries);
    lemma_trie_wf(tree);
    lemma_walk_trie(tree, Seq::empty(), true);
    let walked = walk(tree, Seq::empty(), true);
    let second = with_entries(Map::empty(), walked.entries);
    assert forall|key: Seq<char>| #[trigger] second.contains_key(key) implies first.contains_key(
        key,
    ) && first[key] == second[key] by {
        lemma_with_entries_source(Map::empty(), walked.entries, key);
        let i = choose|i: int|
            0 <= i < walked.entries.len() && #[trigger] walked.entries[i] == (key, second[key]);
        let entry = walked.entries[i];
        assert(reached(tree, Seq::empty(), true, entry));
        let q = choose|q: Segments| #[trigger]
            leaf_at(tree, q, entry.1) && descend(Seq::empty(), true, q) == entry.0;
        assert(listed(entries, q, entry.1));
        let j = choose|j: int|
            0 <= j < entries.len() && split((#[trigger] entries[j]).0) == q && entries[j].1
                == entry.1;
        lemma_descend_split(entries[j].0);
        assert(entries[j].0 == key);
        assert(first[entries[j].0] == entries[j].1);
    }
    assert forall|key: Seq<char>| #[trigger] first.contains_key(key) implies second.contains_key(
        key,
    ) by {
        let j = choose|j: int| 0 <= j < entries.len() && #[trigger] entries[j].0 == key;
        assert(leaf_at(tree, split(entries[j].0), entries[j].1));
        lemma_descend_split(key);
        let wanted = (key, entries[j].1);
        assert(walked.entries.contains(wanted));
        let i = choose|i: int| 0 <= i < walked.entries.len() && walked.entries[i] == wanted;
        lemma_with_entries_key(Map::empty(), walked.entries, i);
    }
    assert(second =~= first);
}

} // verus!
