//! What a tree holds, as a mathematical value.

use vstd::prelude::*;
use crate::bytes;
use crate::listing;

verus! {

/// The number of a change to a versioned tree. The first change has number 1.
pub type SequenceId = u64;

/// What a tree keeps about the current value of a key.
#[derive(Clone, Copy, Debug, PartialEq, Eq)]
pub struct KeyIndex {
    /// The change that stored the value, in a versioned tree.
    pub sequence_id: Option<SequenceId>,
    /// The length of the value in bytes.
    pub value_length: u64,
}

/// One end of a range.
#[derive(Debug)]
pub enum Bound<T> {
    Included(T),
    Excluded(T),
    Unbounded,
}

/// A range of keys.
#[derive(Debug)]
pub struct KeyRange {
    pub start: Bound<Vec<u8>>,
    pub end: Bound<Vec<u8>>,
}

impl KeyRange {
    /// `key` is not before the start of the range.
    pub open spec fn after_start(self, key: Seq<u8>) -> bool {
        match self.start {
            Bound::Included(start) => bytes::key_le(start@, key),
            Bound::Excluded(start) => bytes::key_lt(start@, key),
            Bound::Unbounded => true,
        }
    }

    /// `key` is not behind the end of the range.
    pub open spec fn before_end(self, key: Seq<u8>) -> bool {
        match self.end {
            Bound::Included(end) => bytes::key_le(key, end@),
            Bound::Excluded(end) => bytes::key_lt(key, end@),
            Bound::Unbounded => true,
        }
    }

    /// `key` lies within the range.
    pub open spec fn covers(self, key: Seq<u8>) -> bool {
        self.after_start(key) && self.before_end(key)
    }
}

/// A range of changes to a versioned tree.
#[derive(Debug)]
pub struct SequenceRange {
    pub start: Bound<SequenceId>,
    pub end: Bound<SequenceId>,
}

impl SequenceRange {
    /// Change number `id` lies within the range.
    pub open spec fn covers(self, id: int) -> bool {
        &&& match self.start {
            Bound::Included(start) => start <= id,
            Bound::Excluded(start) => start < id,
            Bound::Unbounded => true,
        }
        &&& match self.end {
            Bound::Included(end) => id <= end,
            Bound::Excluded(end) => id < end,
            Bound::Unbounded => true,
        }
    }
}

/// A change that is applied to each of several keys.
#[derive(Debug)]
pub enum Operation {
    /// Sets every key to this value.
    SetAll(Vec<u8>),
    /// Sets each key to the value in the same place.
    SetEach(Vec<Vec<u8>>),
    /// Removes every key.
    Remove,
}

impl Operation {
    /// The value that key number `i` is set to, or nothing where it is removed.
    pub open spec fn value_at(self, i: int) -> Option<Seq<u8>> {
        match self {
            Operation::SetAll(value) => Some(value@),
            Operation::SetEach(values) => Some(values@[i]@),
            Operation::Remove => None,
        }
    }

    /// There is a value for each of `count` keys.
    pub open spec fn fits(self, count: nat) -> bool {
        self matches Operation::SetEach(values) ==> values@.len() == count
    }
}

/// A key that a modification has changed.
#[derive(Debug)]
pub struct ModificationResult {
    pub key: Vec<u8>,
    /// The new index of the key, or nothing where it was removed.
    pub index: Option<KeyIndex>,
}

/// The key and the number of a change to a versioned tree.
#[derive(Debug)]
pub struct KeySequence {
    pub key: Vec<u8>,
    pub sequence: SequenceId,
}

/// The key, the number and the index of a change to a versioned tree.
#[derive(Debug)]
pub struct SequenceIndex {
    pub key: Vec<u8>,
    pub sequence: SequenceId,
    /// The index that the change gave the key, or nothing where it removed the key.
    pub index: Option<KeyIndex>,
}

/// A change to a versioned tree with the value that it stored.
#[derive(Debug)]
pub struct SequenceEntry {
    pub index: SequenceIndex,
    /// The value, or nothing where the change removed the key.
    pub value: Option<Vec<u8>>,
}

/// What a scan does with a node or a key.
#[derive(Clone, Copy, Debug, PartialEq, Eq, Structural)]
pub enum ScanEvaluation {
    /// Reads it.
    ReadData,
    /// Passes over it.
    Skip,
    /// Ends the scan.
    Stop,
}

/// The bytes of keys that a modification has changed, with their indexes.
pub open spec fn changed(results: Seq<ModificationResult>) -> Seq<(Seq<u8>, Option<KeyIndex>)> {
    Seq::new(results.len(), |i: int| (results[i].key@, results[i].index))
}

/// The bytes of a value that is looked for, where there is one.
pub open spec fn expected_bytes(value: Option<&[u8]>) -> Option<Seq<u8>> {
    match value {
        Some(value) => Some(value@),
        None => None,
    }
}

/// A value that was read with its index.
pub open spec fn entry_of(read: Option<(Vec<u8>, KeyIndex)>) -> Option<Stored> {
    match read {
        Some((value, index)) => Some(Stored { value: value@, index }),
        None => None,
    }
}

/// The bytes of a key and a value that were read.
pub open spec fn pair_of(read: Option<(Vec<u8>, Vec<u8>)>) -> Option<(Seq<u8>, Seq<u8>)> {
    match read {
        Some((key, value)) => Some((key@, value@)),
        None => None,
    }
}

/// A modification leaves the kind of a tree as it was.
pub proof fn lemma_modified_kind(
    tree: TreeModel,
    keys: Seq<Seq<u8>>,
    operation: Operation,
    n: nat,
)
    ensures
        tree.modified(keys, operation, n).versioned == tree.versioned,
    decreases n,
{
    if n > 0 {
        lemma_modified_kind(tree, keys, operation, (n - 1) as nat);
    }
}

/// The bytes of keys and values that were read.
pub open spec fn pairs(read: Seq<(Vec<u8>, Vec<u8>)>) -> Seq<(Seq<u8>, Seq<u8>)> {
    Seq::new(read.len(), |i: int| (read[i].0@, read[i].1@))
}

/// The bytes of keys that were read with their indexes.
pub open spec fn indexed(read: Seq<(Vec<u8>, KeyIndex)>) -> Seq<(Seq<u8>, KeyIndex)> {
    Seq::new(read.len(), |i: int| (read[i].0@, read[i].1))
}

/// The bytes of keys and values that were read with their indexes.
pub open spec fn triples(read: Seq<(Vec<u8>, Vec<u8>, KeyIndex)>) -> Seq<
    (Seq<u8>, Seq<u8>, KeyIndex),
> {
    Seq::new(read.len(), |i: int| (read[i].0@, read[i].1@, read[i].2))
}

/// The value and the index of a key.
#[verifier::ext_equal]
pub struct Stored {
    pub value: Seq<u8>,
    pub index: KeyIndex,
}

/// A change to a versioned tree: the key, and its new value or nothing where the
/// key was removed.
#[verifier::ext_equal]
pub struct Change {
    pub key: Seq<u8>,
    pub value: Option<Seq<u8>>,
}

/// The contents of a tree: what each key holds, and in a versioned tree every
/// change that led there.
#[verifier::ext_equal]
pub struct TreeModel {
    pub versioned: bool,
    pub contents: Map<Seq<u8>, Stored>,
    pub changes: Seq<Change>,
}

impl TreeModel {
    /// A tree without keys.
    pub open spec fn empty(versioned: bool) -> TreeModel {
        TreeModel { versioned, contents: Map::empty(), changes: Seq::empty() }
    }

    /// What `key` holds.
    pub open spec fn lookup(self, key: Seq<u8>) -> Option<Stored> {
        if self.contents.contains_key(key) {
            Some(self.contents[key])
        } else {
            None
        }
    }

    /// The value of `key`.
    pub open spec fn value_of(self, key: Seq<u8>) -> Option<Seq<u8>> {
        if self.contents.contains_key(key) {
            Some(self.contents[key].value)
        } else {
            None
        }
    }

    /// The index of `key`.
    pub open spec fn index_of(self, key: Seq<u8>) -> Option<KeyIndex> {
        if self.contents.contains_key(key) {
            Some(self.contents[key].index)
        } else {
            None
        }
    }

    /// The changes with one more at the end, where the tree keeps them.
    pub open spec fn record(self, change: Change) -> Seq<Change> {
        if self.versioned {
            self.changes.push(change)
        } else {
            self.changes
        }
    }

    /// The index that a key gets when it is set to `value` now.
    pub open spec fn next_index(self, value: Seq<u8>) -> KeyIndex {
        KeyIndex {
            sequence_id: if self.versioned {
                Some((self.changes.len() + 1) as u64)
            } else {
                None
            },
            value_length: value.len() as u64,
        }
    }

    /// The tree after `key` has been set to `value`.
    pub open spec fn set(self, key: Seq<u8>, value: Seq<u8>) -> TreeModel {
        TreeModel {
            versioned: self.versioned,
            contents: self.contents.insert(key, Stored { value, index: self.next_index(value) }),
            changes: self.record(Change { key, value: Some(value) }),
        }
    }

    /// The tree after `key` has been removed. Removing a key that is not there
    /// changes nothing.
    pub open spec fn remove(self, key: Seq<u8>) -> TreeModel {
        if self.contents.contains_key(key) {
            TreeModel {
                versioned: self.versioned,
                contents: self.contents.remove(key),
                changes: self.record(Change { key, value: None }),
            }
        } else {
            self
        }
    }

    /// The tree after `key` has been set to `value`, or removed where there is none.
    pub open spec fn put(self, key: Seq<u8>, value: Option<Seq<u8>>) -> TreeModel {
        match value {
            Some(value) => self.set(key, value),
            None => self.remove(key),
        }
    }

    /// The tree after `operation` has been applied to the first `n` of `keys`, in turn.
    pub open spec fn modified(self, keys: Seq<Seq<u8>>, operation: Operation, n: nat) -> TreeModel
        decreases n,
    {
        if n == 0 {
            self
        } else {
            let before = self.modified(keys, operation, (n - 1) as nat);
            before.put(keys[n - 1], operation.value_at(n - 1))
        }
    }

    /// The keys that have been changed once `operation` has been applied to the
    /// first `n` of `keys`, each with its new index.
    pub open spec fn modifications(
        self,
        keys: Seq<Seq<u8>>,
        operation: Operation,
        n: nat,
    ) -> Seq<(Seq<u8>, Option<KeyIndex>)>
        decreases n,
    {
        if n == 0 {
            Seq::empty()
        } else {
            let before = self.modified(keys, operation, (n - 1) as nat);
            let done = self.modifications(keys, operation, (n - 1) as nat);
            match operation.value_at(n - 1) {
                Some(value) => done.push((keys[n - 1], Some(before.next_index(value)))),
                None => if before.contents.contains_key(keys[n - 1]) {
                    done.push((keys[n - 1], None))
                } else {
                    done
                },
            }
        }
    }

    /// The keys of the tree, in ascending order.
    pub open spec fn keys(self) -> Seq<Seq<u8>> {
        listing::listing(self.contents.dom())
    }

    /// The first key, in ascending order.
    pub open spec fn first_of(self) -> Option<Seq<u8>> {
        if self.keys().len() == 0 {
            None
        } else {
            Some(self.keys()[0])
        }
    }

    /// The last key, in ascending order.
    pub open spec fn last_of(self) -> Option<Seq<u8>> {
        if self.keys().len() == 0 {
            None
        } else {
            Some(self.keys().last())
        }
    }

    /// `key`, where there is one, with its value.
    pub open spec fn with_value(self, key: Option<Seq<u8>>) -> Option<(Seq<u8>, Seq<u8>)> {
        match key {
            Some(key) => Some((key, self.contents[key].value)),
            None => None,
        }
    }

    /// The keys of the tree that lie within `range`, in ascending order.
    pub open spec fn keys_in(self, range: KeyRange) -> Seq<Seq<u8>> {
        listing::listing(self.contents.dom().filter(|key: Seq<u8>| range.covers(key)))
    }

    /// Those of `keys` that the tree holds, in the given order.
    pub open spec fn found(self, keys: Seq<Seq<u8>>) -> Seq<Seq<u8>> {
        keys.filter(|key: Seq<u8>| self.contents.contains_key(key))
    }

    /// The value of each of `keys`.
    pub open spec fn values_at(self, keys: Seq<Seq<u8>>) -> Seq<(Seq<u8>, Seq<u8>)> {
        Seq::new(keys.len(), |i: int| (keys[i], self.contents[keys[i]].value))
    }

    /// The index of each of `keys`.
    pub open spec fn indexes_at(self, keys: Seq<Seq<u8>>) -> Seq<(Seq<u8>, KeyIndex)> {
        Seq::new(keys.len(), |i: int| (keys[i], self.contents[keys[i]].index))
    }

    /// The value and the index of each of `keys`.
    pub open spec fn entries_at(self, keys: Seq<Seq<u8>>) -> Seq<(Seq<u8>, Seq<u8>, KeyIndex)> {
        Seq::new(
            keys.len(),
            |i: int| (keys[i], self.contents[keys[i]].value, self.contents[keys[i]].index),
        )
    }

    /// Change number `id` has been made.
    pub open spec fn has_change(self, id: int) -> bool {
        1 <= id <= self.changes.len()
    }

    /// The index that change number `id` gave its key.
    pub open spec fn index_at(self, id: int) -> Option<KeyIndex> {
        match self.changes[id - 1].value {
            Some(value) => Some(
                KeyIndex { sequence_id: Some(id as u64), value_length: value.len() as u64 },
            ),
            None => None,
        }
    }

    /// Those of `ids` that have been made, in the given order.
    pub open spec fn made(self, ids: Seq<u64>) -> Seq<u64> {
        ids.filter(|id: u64| self.has_change(id as int))
    }

    /// What the keys hold after `changes` have been made to an empty versioned tree.
    pub open spec fn replay(changes: Seq<Change>) -> Map<Seq<u8>, Stored>
        decreases changes.len(),
    {
        if changes.len() == 0 {
            Map::empty()
        } else {
            let before = Self::replay(changes.drop_last());
            let change = changes.last();
            match change.value {
                Some(value) => before.insert(
                    change.key,
                    Stored {
                        value,
                        index: KeyIndex {
                            sequence_id: Some(changes.len() as u64),
                            value_length: value.len() as u64,
                        },
                    },
                ),
                None => before.remove(change.key),
            }
        }
    }

    /// What holds of every tree. There are finitely many keys, and an index gives
    /// the length of the value. A versioned tree holds what its changes have left,
    /// and an index names the change that stored the value. A tree that is not
    /// versioned keeps no changes.
    pub open spec fn consistent(self) -> bool {
        &&& self.contents.dom().finite()
        &&& self.changes.len() <= u64::MAX
        &&& if self.versioned {
            self.contents == Self::replay(self.changes)
        } else {
            self.changes.len() == 0
        }
        &&& forall|key: Seq<u8>| #[trigger]
            self.contents.contains_key(key) ==> {
                let stored = self.contents[key];
                &&& stored.value.len() <= u64::MAX
                &&& stored.index.value_length == stored.value.len()
                &&& stored.index.sequence_id is Some == self.versioned
                &&& stored.index.sequence_id matches Some(id) ==> {
                    &&& self.has_change(id as int)
                    &&& self.changes[id - 1] == (Change { key, value: Some(stored.value) })
                }
            }
    }

    /// Setting a key keeps the tree consistent.
    pub proof fn lemma_set_consistent(self, key: Seq<u8>, value: Seq<u8>)
        requires
            self.consistent(),
            self.changes.len() < u64::MAX,
            value.len() <= u64::MAX,
        ensures
            self.set(key, value).consistent(),
    {
        let after = self.set(key, value);
        if self.versioned {
            assert(after.changes.drop_last() =~= self.changes);
            assert(after.contents =~= Self::replay(after.changes));
        }
    }

    /// Removing a key keeps the tree consistent.
    pub proof fn lemma_remove_consistent(self, key: Seq<u8>)
        requires
            self.consistent(),
            self.changes.len() < u64::MAX,
        ensures
            self.remove(key).consistent(),
    {
        let after = self.remove(key);
        if self.contents.contains_key(key) && self.versioned {
            assert(after.changes.drop_last() =~= self.changes);
            assert(after.contents =~= Self::replay(after.changes));
        }
    }
}

} // verus!
