//! The contents of a tree, as the database keeps them: the entries in key order,
//! and in a versioned tree every change.

use vstd::prelude::*;
use crate::bytes;
use crate::bytes::{copy_bytes, copy_optional, compare_keys, KeyOrder};
use crate::listing;
use crate::model;
use crate::model::{Change, KeyIndex, Stored, TreeModel};

verus! {

/// A key with its value and its index.
pub(crate) struct Entry {
    pub(crate) key: Vec<u8>,
    pub(crate) value: Vec<u8>,
    pub(crate) index: KeyIndex,
}

/// A change to a versioned tree.
pub(crate) struct ChangeRecord {
    pub(crate) key: Vec<u8>,
    pub(crate) value: Option<Vec<u8>>,
}

/// The contents of a tree.
pub struct TreeState {
    pub(crate) versioned: bool,
    pub(crate) entries: Vec<Entry>,
    pub(crate) changes: Vec<ChangeRecord>,
}

pub(crate) open spec fn stored(entry: Entry) -> Stored {
    Stored { value: entry.value@, index: entry.index }
}

pub(crate) open spec fn keys_of(entries: Seq<Entry>) -> Seq<Seq<u8>> {
    Seq::new(entries.len(), |i: int| entries[i].key@)
}

pub(crate) open spec fn contents_of(entries: Seq<Entry>) -> Map<Seq<u8>, Stored> {
    Map::new(
        |key: Seq<u8>| keys_of(entries).contains(key),
        |key: Seq<u8>| stored(entries[keys_of(entries).index_of(key)]),
    )
}

pub(crate) open spec fn change_of(record: ChangeRecord) -> Change {
    Change { key: record.key@, value: bytes::optional(record.value) }
}

pub(crate) open spec fn changes_of(records: Seq<ChangeRecord>) -> Seq<Change> {
    Seq::new(records.len(), |i: int| change_of(records[i]))
}

/// Each entry is found under its own key.
pub(crate) proof fn lemma_contents_at(entries: Seq<Entry>, i: int)
    requires
        listing::ascending(keys_of(entries)),
        0 <= i < entries.len(),
    ensures
        contents_of(entries).contains_key(entries[i].key@),
        contents_of(entries)[entries[i].key@] == stored(entries[i]),
{
    let keys = keys_of(entries);
    assert(keys[i] == entries[i].key@);
    assert(keys.contains(keys[i]));
    let j = keys.index_of(keys[i]);
    assert(keys[j] == keys[i]);
    if i != j {
        bytes::lemma_key_lt_irreflexive(keys[i]);
    }
}

/// A map that agrees with the entries, and has no other key, is their contents.
pub(crate) proof fn lemma_contents_is(entries: Seq<Entry>, map: Map<Seq<u8>, Stored>)
    requires
        listing::ascending(keys_of(entries)),
        forall|i: int|
            0 <= i < entries.len() ==> {
                &&& map.contains_key(#[trigger] entries[i].key@)
                &&& map[entries[i].key@] == stored(entries[i])
            },
        forall|key: Seq<u8>| #[trigger]
            map.contains_key(key) ==> keys_of(entries).contains(key),
    ensures
        contents_of(entries) == map,
{
    let keys = keys_of(entries);
    assert forall|key: Seq<u8>| contents_of(entries).contains_key(key) == #[trigger]
        map.contains_key(key) by {
        if keys.contains(key) {
            let i = keys.index_of(key);
            assert(entries[i].key@ == key);
        }
    }
    assert forall|key: Seq<u8>| #[trigger]
        map.contains_key(key) implies contents_of(entries)[key] == map[key] by {
        let i = keys.index_of(key);
        assert(keys[i] == key);
        assert(entries[i].key@ == key);
        lemma_contents_at(entries, i);
    }
    assert(contents_of(entries) =~= map);
}

/// The keys of the entries are the keys of their contents, in order.
pub(crate) proof fn lemma_keys_listed(entries: Seq<Entry>)
    requires
        listing::ascending(keys_of(entries)),
    ensures
        listing::lists(keys_of(entries), contents_of(entries).dom()),
        listing::listing(contents_of(entries).dom()) == keys_of(entries),
        contents_of(entries).dom().finite(),
        contents_of(entries).dom().len() == entries.len(),
{
    listing::lemma_listing_is(keys_of(entries), contents_of(entries).dom());
    listing::lemma_listing_len(keys_of(entries), contents_of(entries).dom());
}

impl View for TreeState {
    type V = TreeModel;

    open(crate) spec fn view(&self) -> TreeModel {
        TreeModel {
            versioned: self.versioned,
            contents: contents_of(self.entries@),
            changes: changes_of(self.changes@),
        }
    }
}

impl TreeState {
    /// The entries stand in key order, and the tree is consistent.
    pub open(crate) spec fn wf(&self) -> bool {
        &&& listing::ascending(keys_of(self.entries@))
        &&& self@.consistent()
    }

    /// What the tree holds is consistent.
    pub proof fn lemma_wf(&self)
        requires
            self.wf(),
        ensures
            self@.consistent(),
    {
    }

    /// A tree without keys.
    pub fn new(versioned: bool) -> (state: TreeState)
        ensures
            state.wf(),
            state@ == TreeModel::empty(versioned),
    {
        let state = TreeState { versioned, entries: Vec::new(), changes: Vec::new() };
        proof {
            assert(state@.contents =~= Map::<Seq<u8>, Stored>::empty());
            assert(state@.changes =~= Seq::<Change>::empty());
        }
        state
    }

    /// Where `key` stands among the entries, or belongs.
    pub(crate) fn locate(&self, key: &[u8]) -> (place: (bool, usize))
        requires
            listing::ascending(keys_of(self.entries@)),
        ensures
            place.1 <= self.entries@.len(),
            forall|i: int|
                0 <= i < place.1 ==> bytes::key_lt(#[trigger] self.entries@[i].key@, key@),
            forall|i: int|
                place.1 <= i < self.entries@.len() ==> bytes::key_le(
                    key@,
                    #[trigger] self.entries@[i].key@,
                ),
            place.0 ==> place.1 < self.entries@.len() && self.entries@[place.1 as int].key@ == key@,
            !place.0 ==> forall|i: int|
                place.1 <= i < self.entries@.len() ==> bytes::key_lt(
                    key@,
                    #[trigger] self.entries@[i].key@,
                ),
            place.0 == contents_of(self.entries@).contains_key(key@),
    {
        let ghost keys = keys_of(self.entries@);
        let mut low: usize = 0;
        let mut high: usize = self.entries.len();
        while low < high
            invariant
                keys == keys_of(self.entries@),
                listing::ascending(keys),
                low <= high <= self.entries@.len(),
                forall|i: int|
                    0 <= i < low ==> bytes::key_lt(#[trigger] self.entries@[i].key@, key@),
                forall|i: int|
                    high <= i < self.entries@.len() ==> bytes::key_lt(
                        key@,
                        #[trigger] self.entries@[i].key@,
                    ),
            decreases high - low,
        {
            let middle: usize = low + (high - low) / 2;
            assert(keys[middle as int] == self.entries@[middle as int].key@);
            match compare_keys(self.entries[middle].key.as_slice(), key) {
                KeyOrder::Equal => {
                    proof {
                        assert forall|i: int| 0 <= i < middle implies bytes::key_lt(
                            #[trigger] self.entries@[i].key@,
                            key@,
                        ) by {
                            assert(keys[i] == self.entries@[i].key@);
                        }
                        assert forall|i: int|
                            middle <= i < self.entries@.len() implies bytes::key_le(
                            key@,
                            #[trigger] self.entries@[i].key@,
                        ) by {
                            assert(keys[i] == self.entries@[i].key@);
                        }
                        lemma_contents_at(self.entries@, middle as int);
                    }
                    return (true, middle);
                },
                KeyOrder::Less => {
                    proof {
                        assert forall|i: int| 0 <= i < middle + 1 implies bytes::key_lt(
                            #[trigger] self.entries@[i].key@,
                            key@,
                        ) by {
                            assert(keys[i] == self.entries@[i].key@);
                            if i < middle {
                                bytes::lemma_key_lt_transitive(keys[i], keys[middle as int], key@);
                            }
                        }
                    }
                    low = middle + 1;
                },
                KeyOrder::Greater => {
                    proof {
                        assert forall|i: int|
                            middle <= i < self.entries@.len() implies bytes::key_lt(
                            key@,
                            #[trigger] self.entries@[i].key@,
                        ) by {
                            assert(keys[i] == self.entries@[i].key@);
                            if middle < i {
                                bytes::lemma_key_lt_transitive(key@, keys[middle as int], keys[i]);
                            }
                        }
                    }
                    high = middle;
                },
            }
        }
        proof {
            if keys.contains(key@) {
                let i = keys.index_of(key@);
                assert(self.entries@[i].key@ == key@);
                bytes::lemma_key_lt_irreflexive(key@);
            }
        }
        (false, low)
    }

    /// Sets `key` to `value`. Returns the new index of the key.
    pub fn set(&mut self, key: Vec<u8>, value: Vec<u8>) -> (index: KeyIndex)
        requires
            old(self).wf(),
        ensures
            final(self).wf(),
            final(self)@ == old(self)@.set(key@, value@),
            index == old(self)@.next_index(value@),
    {
        let value_length: u64 = value.len() as u64;
        let (found, at) = self.locate(key.as_slice());
        let sequence_id = if self.versioned {
            let record = ChangeRecord {
                key: copy_bytes(key.as_slice()),
                value: Some(copy_bytes(value.as_slice())),
            };
            self.changes.push(record);
            let count: usize = self.changes.len();
            Some(count as u64)
        } else {
            None
        };
        let index = KeyIndex { sequence_id, value_length };
        let ghost key_bytes = key@;
        let ghost value_bytes = value@;
        let ghost before = old(self).entries@;
        if found {
            self.entries[at].value = value;
            self.entries[at].index = index;
        } else {
            self.entries.insert(at, Entry { key, value, index });
        }
        proof {
            let after = self.entries@;
            let map = contents_of(before).insert(
                key_bytes,
                Stored { value: value_bytes, index },
            );
            let old_keys = keys_of(before);
            let keys = keys_of(after);
            if found {
                assert(keys =~= old_keys);
                assert forall|i: int| 0 <= i < after.len() implies {
                    &&& map.contains_key(#[trigger] after[i].key@)
                    &&& map[after[i].key@] == stored(after[i])
                } by {
                    lemma_contents_at(before, i);
                    if i != at {
                        assert(old_keys[i] == before[i].key@);
                        assert(old_keys[at as int] == before[at as int].key@);
                        bytes::lemma_key_lt_irreflexive(key_bytes);
                    }
                }
                assert(old_keys[at as int] == key_bytes);
                assert(keys.contains(keys[at as int]));
            } else {
                assert(keys =~= old_keys.insert(at as int, key_bytes));
                assert forall|i: int, j: int| 0 <= i < j < keys.len() implies bytes::key_lt(
                    #[trigger] keys[i],
                    #[trigger] keys[j],
                ) by {
                    if i < at {
                        assert(keys[i] == before[i].key@);
                    } else if i > at {
                        assert(keys[i] == old_keys[i - 1]);
                    }
                    if j < at {
                        assert(keys[j] == before[j].key@);
                    } else if j > at {
                        assert(keys[j] == before[j - 1].key@);
                        assert(keys[j] == old_keys[j - 1]);
                    }
                }
                assert forall|i: int| 0 <= i < after.len() implies {
                    &&& map.contains_key(#[trigger] after[i].key@)
                    &&& map[after[i].key@] == stored(after[i])
                } by {
                    if i < at {
                        lemma_contents_at(before, i);
                        assert(after[i] == before[i]);
                        bytes::lemma_key_lt_irreflexive(key_bytes);
                    } else if i > at {
                        lemma_contents_at(before, i - 1);
                        assert(after[i] == before[i - 1]);
                        bytes::lemma_key_lt_irreflexive(key_bytes);
                    }
                }
                assert(keys[at as int] == key_bytes);
                assert forall|k: Seq<u8>| #[trigger] map.contains_key(k) implies keys.contains(
                    k,
                ) by {
                    if k != key_bytes {
                        let i = old_keys.index_of(k);
                        assert(old_keys[i] == k);
                        if i < at {
                            assert(keys[i] == k);
                        } else {
                            assert(keys[i + 1] == k);
                        }
                    }
                }
            }
            lemma_contents_is(after, map);
            assert(self@.changes =~= old(self)@.set(key_bytes, value_bytes).changes);
            old(self)@.lemma_set_consistent(key_bytes, value_bytes);
        }
        index
    }

    /// Removes `key`. Returns the value and the index that it had, if it was there.
    pub fn remove(&mut self, key: &[u8]) -> (removed: Option<(Vec<u8>, KeyIndex)>)
        requires
            old(self).wf(),
        ensures
            final(self).wf(),
            final(self)@ == old(self)@.remove(key@),
            model::entry_of(removed) == old(self)@.lookup(key@),
    {
        let (found, at) = self.locate(key);
        if !found {
            return None;
        }
        if self.versioned {
            let record = ChangeRecord { key: copy_bytes(key), value: None };
            self.changes.push(record);
            let count: usize = self.changes.len();
            assert(count == old(self).changes@.len() + 1);
        }
        let entry = self.entries.remove(at);
        proof {
            let before = old(self).entries@;
            let after = self.entries@;
            let old_keys = keys_of(before);
            let keys = keys_of(after);
            let map = contents_of(before).remove(key@);
            lemma_contents_at(before, at as int);
            assert(keys =~= old_keys.remove(at as int));
            assert forall|i: int| 0 <= i < after.len() implies {
                &&& map.contains_key(#[trigger] after[i].key@)
                &&& map[after[i].key@] == stored(after[i])
            } by {
                let j = if i < at {
                    i
                } else {
                    i + 1
                };
                assert(after[i] == before[j]);
                lemma_contents_at(before, j);
                assert(old_keys[j] == before[j].key@ && old_keys[at as int] == key@);
                bytes::lemma_key_lt_irreflexive(key@);
            }
            assert forall|k: Seq<u8>| #[trigger] map.contains_key(k) implies keys.contains(k) by {
                let i = old_keys.index_of(k);
                assert(old_keys[i] == k);
                assert(old_keys[at as int] == key@);
                if i < at {
                    assert(keys[i] == k);
                } else {
                    assert(keys[i - 1] == k);
                }
            }
            lemma_contents_is(after, map);
            assert(self@.changes =~= old(self)@.remove(key@).changes);
            old(self)@.lemma_remove_consistent(key@);
        }
        Some((entry.value, entry.index))
    }

    /// A copy of the whole tree.
    pub fn duplicate(&self) -> (copy: TreeState)
        requires
            self.wf(),
        ensures
            copy.wf(),
            copy@ == self@,
    {
        let mut entries: Vec<Entry> = Vec::new();
        let mut i: usize = 0;
        while i < self.entries.len()
            invariant
                i <= self.entries@.len(),
                entries@.len() == i,
                forall|j: int|
                    0 <= j < i ==> {
                        &&& (#[trigger] entries@[j]).key@ == self.entries@[j].key@
                        &&& stored(entries@[j]) == stored(self.entries@[j])
                    },
            decreases self.entries@.len() - i,
        {
            let entry = &self.entries[i];
            entries.push(
                Entry {
                    key: copy_bytes(entry.key.as_slice()),
                    value: copy_bytes(entry.value.as_slice()),
                    index: entry.index,
                },
            );
            i = i + 1;
        }
        let mut changes: Vec<ChangeRecord> = Vec::new();
        let mut c: usize = 0;
        while c < self.changes.len()
            invariant
                c <= self.changes@.len(),
                changes@.len() == c,
                forall|j: int|
                    0 <= j < c ==> change_of(#[trigger] changes@[j]) == change_of(self.changes@[j]),
            decreases self.changes@.len() - c,
        {
            let record = &self.changes[c];
            changes.push(
                ChangeRecord {
                    key: copy_bytes(record.key.as_slice()),
                    value: copy_optional(&record.value),
                },
            );
            c = c + 1;
        }
        let copy = TreeState { versioned: self.versioned, entries, changes };
        proof {
            let keys = keys_of(self.entries@);
            assert(keys_of(copy.entries@) =~= keys);
            assert forall|i: int| 0 <= i < copy.entries@.len() implies {
                &&& contents_of(self.entries@).contains_key(#[trigger] copy.entries@[i].key@)
                &&& contents_of(self.entries@)[copy.entries@[i].key@] == stored(copy.entries@[i])
            } by {
                lemma_contents_at(self.entries@, i);
            }
            lemma_contents_is(copy.entries@, contents_of(self.entries@));
            assert(copy@.changes =~= self@.changes);
        }
        copy
    }
}

} // verus!
