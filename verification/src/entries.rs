//! The result of a conversion: a mapping from keys to values, kept in key
//! order.

use vstd::prelude::*;
use vstd::utf8::encode_utf8;
use crate::order::{
    compare_keys, key_precedes, lemma_encoding_injective, lemma_precede_asymmetric,
    lemma_precede_total, lemma_precede_transitive, KeyOrder,
};

verus! {

/// A key with its value.
pub type Entry = (Seq<char>, Seq<char>);

/// `base` after the entries were inserted into it one after the other: an
/// entry replaces what one before it put under the same key.
pub open spec fn with_entries(base: Map<Seq<char>, Seq<char>>, entries: Seq<Entry>) -> Map<
    Seq<char>,
    Seq<char>,
>
    decreases entries.len(),
{
    if entries.len() == 0 {
        base
    } else {
        with_entries(base, entries.drop_last()).insert(entries.last().0, entries.last().1)
    }
}

/// The keys of `entries` are strictly ascending, byte by byte.
pub open spec fn keys_ascending(entries: Seq<Entry>) -> bool {
    forall|i: int, j: int|
        0 <= i < j < entries.len() ==> key_precedes(
            #[trigger] entries[i].0,
            #[trigger] entries[j].0,
        )
}

/// Inserting one more entry after the others.
pub proof fn lemma_with_entries_push(
    base: Map<Seq<char>, Seq<char>>,
    entries: Seq<Entry>,
    entry: Entry,
)
    ensures
        with_entries(base, entries.push(entry)) == with_entries(base, entries).insert(
            entry.0,
            entry.1,
        ),
{
    assert(entries.push(entry).drop_last() =~= entries);
}

/// Inserting a single entry.
pub proof fn lemma_with_one_entry(base: Map<Seq<char>, Seq<char>>, entry: Entry)
    ensures
        with_entries(base, seq![entry]) == base.insert(entry.0, entry.1),
{
    lemma_with_entries_push(base, Seq::empty(), entry);
    assert(seq![entry] =~= Seq::<Entry>::empty().push(entry));
}

/// Inserting two runs of entries one after the other.
pub proof fn lemma_with_entries_concat(
    base: Map<Seq<char>, Seq<char>>,
    first: Seq<Entry>,
    second: Seq<Entry>,
)
    ensures
        with_entries(base, first + second) == with_entries(with_entries(base, first), second),
    decreases second.len(),
{
    if second.len() == 0 {
        assert(first + second =~= first);
    } else {
        lemma_with_entries_concat(base, first, second.drop_last());
        assert((first + second).drop_last() =~= first + second.drop_last());
    }
}

/// Ascending keys are all different.
pub proof fn lemma_ascending_distinct(entries: Seq<Entry>)
    requires
        keys_ascending(entries),
    ensures
        forall|i: int, j: int|
            0 <= i < j < entries.len() ==> (#[trigger] entries[i]).0 != (#[trigger] entries[j]).0,
{
    assert forall|i: int, j: int| 0 <= i < j < entries.len() implies (#[trigger] entries[i]).0 != (
        #[trigger] entries[j]).0 by {
        assert(key_precedes(entries[i].0, entries[j].0));
        lemma_precede_asymmetric(encode_utf8(entries[i].0), encode_utf8(entries[j].0));
    }
}

/// Under ascending keys the mapping holds exactly the listed entries.
pub proof fn lemma_ascending_entries(entries: Seq<Entry>)
    requires
        keys_ascending(entries),
    ensures
        forall|k: Seq<char>| #[trigger]
            with_entries(Map::empty(), entries).contains_key(k) <==> exists|i: int|
                0 <= i < entries.len() && #[trigger] entries[i].0 == k,
        forall|i: int|
            0 <= i < entries.len() ==> with_entries(Map::empty(), entries)[#[trigger] entries[i].0]
                == entries[i].1,
    decreases entries.len(),
{
    let map = with_entries(Map::empty(), entries);
    if entries.len() > 0 {
        let front = entries.drop_last();
        let last = entries.last();
        assert forall|i: int, j: int| 0 <= i < j < front.len() implies key_precedes(
            #[trigger] front[i].0,
            #[trigger] front[j].0,
        ) by {
            assert(front[i] == entries[i]);
            assert(front[j] == entries[j]);
        }
        lemma_ascending_entries(front);
        let shorter = with_entries(Map::empty(), front);
        assert forall|k: Seq<char>| #[trigger] map.contains_key(k) <==> exists|i: int|
            0 <= i < entries.len() && #[trigger] entries[i].0 == k by {
            if map.contains_key(k) {
                if k == last.0 {
                    assert(entries[entries.len() - 1].0 == k);
                } else {
                    assert(shorter.contains_key(k));
                    let i = choose|i: int| 0 <= i < front.len() && #[trigger] front[i].0 == k;
                    assert(entries[i].0 == k);
                }
            }
            if exists|i: int| 0 <= i < entries.len() && #[trigger] entries[i].0 == k {
                let i = choose|i: int| 0 <= i < entries.len() && #[trigger] entries[i].0 == k;
                if i < front.len() {
                    assert(front[i].0 == k);
                }
            }
        }
        assert forall|i: int| 0 <= i < entries.len() implies map[#[trigger] entries[i].0]
            == entries[i].1 by {
            if i < front.len() {
                assert(front[i] == entries[i]);
                assert(key_precedes(entries[i].0, entries[entries.len() - 1].0));
                lemma_precede_asymmetric(encode_utf8(entries[i].0), encode_utf8(last.0));
            }
        }
    }
}

/// A mapping from keys to values whose entries are kept in key order.
#[derive(Debug)]
pub struct KeyValues {
    items: Vec<(String, String)>,
}

impl View for KeyValues {
    type V = Map<Seq<char>, Seq<char>>;

    /// The mapping itself.
    open spec fn view(&self) -> Map<Seq<char>, Seq<char>> {
        with_entries(Map::empty(), self.entries())
    }
}

impl KeyValues {
    /// The entries in the order in which they are kept.
    pub closed spec fn entries(&self) -> Seq<Entry> {
        Seq::new(self.items@.len(), |i: int| (self.items@[i].0@, self.items@[i].1@))
    }

    /// The entries are in strictly ascending key order, so no key occurs
    /// twice.
    pub open spec fn wf(&self) -> bool {
        keys_ascending(self.entries())
    }

    /// A mapping without entries.
    pub fn new() -> (kv: KeyValues)
        ensures
            kv.wf(),
            kv.entries() == Seq::<Entry>::empty(),
            kv@ == Map::<Seq<char>, Seq<char>>::empty(),
    {
        let kv = KeyValues { items: Vec::new() };
        assert(kv.entries() =~= Seq::<Entry>::empty());
        kv
    }

    /// The number of entries.
    pub fn len(&self) -> (n: usize)
        ensures
            n == self.entries().len(),
    {
        self.items.len()
    }

    /// The key of the entry at `index`.
    pub fn key(&self, index: usize) -> (key: &str)
        requires
            index < self.entries().len(),
        ensures
            key@ == self.entries()[index as int].0,
    {
        self.items[index].0.as_str()
    }

    /// The value of the entry at `index`.
    pub fn value(&self, index: usize) -> (value: &str)
        requires
            index < self.entries().len(),
        ensures
            value@ == self.entries()[index as int].1,
    {
        self.items[index].1.as_str()
    }

    /// Puts `value` under `key`, in place of what was there. The place is
    /// found by halving the range in which it can lie.
    pub fn insert(&mut self, key: String, value: String)
        requires
            old(self).wf(),
        ensures
            final(self).wf(),
            final(self)@ == old(self)@.insert(key@, value@),
    {
        let ghost before = self.entries();
        let mut low: usize = 0;
        let mut high: usize = self.items.len();
        while low < high
            invariant
                low <= high <= self.items.len(),
                self.entries() == before,
                before == old(self).entries(),
                keys_ascending(before),
                forall|j: int| 0 <= j < low ==> key_precedes(#[trigger] before[j].0, key@),
                forall|j: int| high <= j < before.len() ==> key_precedes(key@, #[trigger] before[j].0),
            decreases high - low,
        {
            let middle = low + (high - low) / 2;
            let ghost found = before[middle as int].0;
            assert(found == self.items@[middle as int].0@);
            match compare_keys(self.items[middle].0.as_str(), key.as_str()) {
                KeyOrder::Before => {
                    proof {
                        assert forall|j: int| 0 <= j < middle + 1 implies key_precedes(
                            #[trigger] before[j].0,
                            key@,
                        ) by {
                            if j < middle {
                                assert(key_precedes(before[j].0, before[middle as int].0));
                                lemma_precede_transitive(
                                    encode_utf8(before[j].0),
                                    encode_utf8(found),
                                    encode_utf8(key@),
                                );
                            }
                        }
                    }
                    low = middle + 1;
                },
                KeyOrder::Same => {
                    self.items[middle] = (key, value);
                    proof {
                        assert(self.entries() =~= before.update(middle as int, (key@, value@)));
                        lemma_replace(before, middle as int, value@);
                    }
                    return ;
                },
                KeyOrder::After => {
                    proof {
                        lemma_precede_total(encode_utf8(key@), encode_utf8(found));
                        if encode_utf8(key@) == encode_utf8(found) {
                            lemma_encoding_injective(key@, found);
                        }
                        assert forall|j: int| middle <= j < before.len() implies key_precedes(
                            key@,
                            #[trigger] before[j].0,
                        ) by {
                            if middle < j {
                                assert(key_precedes(before[middle as int].0, before[j].0));
                                lemma_precede_transitive(
                                    encode_utf8(key@),
                                    encode_utf8(found),
                                    encode_utf8(before[j].0),
                                );
                            }
                        }
                    }
                    high = middle;
                },
            }
        }
        self.items.insert(low, (key, value));
        proof {
            assert(self.entries() =~= before.insert(low as int, (key@, value@)));
            lemma_insert(before, low as int, (key@, value@));
        }
    }
}

/// A new value at a place whose key stays the same.
proof fn lemma_replace(entries: Seq<Entry>, at: int, value: Seq<char>)
    requires
        keys_ascending(entries),
        0 <= at < entries.len(),
    ensures
        keys_ascending(entries.update(at, (entries[at].0, value))),
        with_entries(Map::empty(), entries.update(at, (entries[at].0, value))) == with_entries(
            Map::empty(),
            entries,
        ).insert(entries[at].0, value),
{
    let key = entries[at].0;
    let after = entries.update(at, (key, value));
    assert forall|i: int, j: int| 0 <= i < j < after.len() implies key_precedes(
        #[trigger] after[i].0,
        #[trigger] after[j].0,
    ) by {
        assert(after[i].0 == entries[i].0);
        assert(after[j].0 == entries[j].0);
    }
    lemma_ascending_entries(entries);
    lemma_ascending_entries(after);
    let old_map = with_entries(Map::empty(), entries);
    let new_map = with_entries(Map::empty(), after);
    let want = old_map.insert(key, value);
    assert forall|k: Seq<char>| new_map.contains_key(k) <==> want.contains_key(k) by {
        if new_map.contains_key(k) {
            let i = choose|i: int| 0 <= i < after.len() && #[trigger] after[i].0 == k;
            assert(entries[i].0 == k);
        }
        if want.contains_key(k) {
            if k == key {
                assert(after[at].0 == k);
            } else {
                let i = choose|i: int| 0 <= i < entries.len() && #[trigger] entries[i].0 == k;
                assert(after[i].0 == k);
            }
        }
    }
    assert forall|k: Seq<char>| new_map.contains_key(k) implies new_map[k] == want[k] by {
        let i = choose|i: int| 0 <= i < after.len() && #[trigger] after[i].0 == k;
        assert(new_map[after[i].0] == after[i].1);
        if i != at {
            assert(entries[i].0 == k);
            assert(old_map[entries[i].0] == entries[i].1);
            if i < at {
                lemma_precede_asymmetric(encode_utf8(entries[i].0), encode_utf8(entries[at].0));
            } else {
                lemma_precede_asymmetric(encode_utf8(entries[at].0), encode_utf8(entries[i].0));
            }
        }
    }
    assert(new_map =~= want);
}

/// A new entry between the keys before it and the keys after it.
proof fn lemma_insert(entries: Seq<Entry>, at: int, entry: Entry)
    requires
        keys_ascending(entries),
        0 <= at <= entries.len(),
        forall|j: int| 0 <= j < at ==> key_precedes(#[trigger] entries[j].0, entry.0),
        at < entries.len() ==> key_precedes(entry.0, entries[at].0),
    ensures
        keys_ascending(entries.insert(at, entry)),
        with_entries(Map::empty(), entries.insert(at, entry)) == with_entries(
            Map::empty(),
            entries,
        ).insert(entry.0, entry.1),
{
    let after = entries.insert(at, entry);
    assert forall|j: int| at <= j < entries.len() implies key_precedes(
        entry.0,
        #[trigger] entries[j].0,
    ) by {
        if at < j {
            assert(key_precedes(entries[at].0, entries[j].0));
            lemma_precede_transitive(
                encode_utf8(entry.0),
                encode_utf8(entries[at].0),
                encode_utf8(entries[j].0),
            );
        }
    }
    assert forall|i: int, j: int| 0 <= i < j < after.len() implies key_precedes(
        #[trigger] after[i].0,
        #[trigger] after[j].0,
    ) by {
        let oi = if i < at { i } else { i - 1 };
        let oj = if j < at { j } else { j - 1 };
        if i != at {
            assert(after[i] == entries[oi]);
        }
        if j != at {
            assert(after[j] == entries[oj]);
        }
        if i != at && j != at {
            assert(key_precedes(entries[oi].0, entries[oj].0));
        }
    }
    lemma_ascending_entries(entries);
    lemma_ascending_entries(after);
    let old_map = with_entries(Map::empty(), entries);
    let new_map = with_entries(Map::empty(), after);
    let want = old_map.insert(entry.0, entry.1);
    assert forall|k: Seq<char>| new_map.contains_key(k) <==> want.contains_key(k) by {
        if new_map.contains_key(k) {
            let i = choose|i: int| 0 <= i < after.len() && #[trigger] after[i].0 == k;
            if i < at {
                assert(entries[i].0 == k);
            } else if i > at {
                assert(entries[i - 1].0 == k);
            }
        }
        if want.contains_key(k) {
            if k == entry.0 {
                assert(after[at].0 == k);
            } else {
                let i = choose|i: int| 0 <= i < entries.len() && #[trigger] entries[i].0 == k;
                if i < at {
                    assert(after[i].0 == k);
                } else {
                    assert(after[i + 1].0 == k);
                }
            }
        }
    }
    assert forall|k: Seq<char>| new_map.contains_key(k) implies new_map[k] == want[k] by {
        let i = choose|i: int| 0 <= i < after.len() && #[trigger] after[i].0 == k;
        assert(new_map[after[i].0] == after[i].1);
        if i < at {
            assert(entries[i].0 == k);
            assert(old_map[entries[i].0] == entries[i].1);
            lemma_precede_asymmetric(encode_utf8(entries[i].0), encode_utf8(entry.0));
        } else if i > at {
            assert(entries[i - 1].0 == k);
            assert(old_map[entries[i - 1].0] == entries[i - 1].1);
            lemma_precede_asymmetric(encode_utf8(entry.0), encode_utf8(entries[i - 1].0));
        }
    }
    assert(new_map =~= want);
}

} // verus!
