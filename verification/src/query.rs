//! Reading from the contents of a tree.

use vstd::prelude::*;
use crate::bytes;
use crate::bytes::copy_bytes;
use crate::listing;
use crate::model;
use crate::model::{Bound, KeyIndex, KeyRange, SequenceId};
use crate::state;
use crate::state::TreeState;

verus! {

impl TreeState {
    /// The keys at some places of the tree.
    pub(crate) open spec fn keys_at(&self, places: Seq<usize>) -> Seq<Seq<u8>> {
        Seq::new(places.len(), |i: int| self.entries@[places[i] as int].key@)
    }

    /// Each of `places` is the place of an entry.
    pub(crate) open spec fn has_places(&self, places: Seq<usize>) -> bool {
        forall|i: int| 0 <= i < places.len() ==> (#[trigger] places[i]) < self.entries@.len()
    }

    /// The number of keys.
    pub fn count(&self) -> (count: u64)
        requires
            self.wf(),
        ensures
            count == self@.contents.dom().len(),
    {
        proof {
            state::lemma_keys_listed(self.entries@);
        }
        let count: usize = self.entries.len();
        count as u64
    }

    /// The number of the latest change.
    pub fn current_sequence_id(&self) -> (id: SequenceId)
        requires
            self.wf(),
        ensures
            id == self@.changes.len(),
    {
        let count: usize = self.changes.len();
        count as u64
    }

    /// The value of `key`.
    pub fn get(&self, key: &[u8]) -> (value: Option<Vec<u8>>)
        requires
            self.wf(),
        ensures
            bytes::optional(value) == self@.value_of(key@),
    {
        let (found, at) = self.locate(key);
        if found {
            proof {
                state::lemma_contents_at(self.entries@, at as int);
            }
            Some(copy_bytes(self.entries[at].value.as_slice()))
        } else {
            None
        }
    }

    /// The index of `key`.
    pub fn get_index(&self, key: &[u8]) -> (index: Option<KeyIndex>)
        requires
            self.wf(),
        ensures
            index == self@.index_of(key@),
    {
        let (found, at) = self.locate(key);
        if found {
            proof {
                state::lemma_contents_at(self.entries@, at as int);
            }
            Some(self.entries[at].index)
        } else {
            None
        }
    }

    /// The value and the index of `key`.
    pub fn get_with_index(&self, key: &[u8]) -> (read: Option<(Vec<u8>, KeyIndex)>)
        requires
            self.wf(),
        ensures
            model::entry_of(read) == self@.lookup(key@),
    {
        let (found, at) = self.locate(key);
        if found {
            proof {
                state::lemma_contents_at(self.entries@, at as int);
            }
            Some((copy_bytes(self.entries[at].value.as_slice()), self.entries[at].index))
        } else {
            None
        }
    }

    /// The places of those of `keys` that the tree holds.
    fn places_of(&self, keys: &[&[u8]]) -> (places: Vec<usize>)
        requires
            self.wf(),
        ensures
            self.has_places(places@),
            self.keys_at(places@) == self@.found(bytes::all_of(keys@)),
    {
        let ghost wanted = bytes::all_of(keys@);
        let ghost held = |key: Seq<u8>| self@.contents.contains_key(key);
        let mut places: Vec<usize> = Vec::new();
        let mut i: usize = 0;
        proof {
            assert(wanted.take(0).filter(held) =~= Seq::empty());
            assert(self.keys_at(places@) =~= Seq::empty());
        }
        while i < keys.len()
            invariant
                self.wf(),
                i <= keys@.len(),
                wanted == bytes::all_of(keys@),
                held == (|key: Seq<u8>| self@.contents.contains_key(key)),
                self.has_places(places@),
                self.keys_at(places@) == wanted.take(i as int).filter(held),
            decreases keys@.len() - i,
        {
            let ghost before = places@;
            let (found, at) = self.locate(keys[i]);
            if found {
                places.push(at);
            }
            proof {
                assert(wanted.take(i + 1).drop_last() =~= wanted.take(i as int));
                assert(wanted.take(i + 1).last() == keys@[i as int]@);
                reveal(Seq::filter);
                if found {
                    assert(self.keys_at(places@) =~= self.keys_at(before).push(keys@[i as int]@));
                }
            }
            i = i + 1;
        }
        assert(wanted.take(i as int) =~= wanted);
        places
    }

    /// The place of the first key that is not before the start of `range`.
    pub(crate) fn start_of(&self, range: &KeyRange) -> (place: usize)
        requires
            self.wf(),
        ensures
            place <= self.entries@.len(),
            forall|i: int|
                0 <= i < self.entries@.len() ==> (range.after_start(
                    #[trigger] self.entries@[i].key@,
                ) <==> place <= i),
    {
        match &range.start {
            Bound::Included(start) => {
                let (_, at) = self.locate(start.as_slice());
                proof {
                    assert forall|i: int| 0 <= i < at implies !range.after_start(
                        #[trigger] self.entries@[i].key@,
                    ) by {
                        let key = self.entries@[i].key@;
                        bytes::lemma_key_lt_irreflexive(key);
                        if bytes::key_lt(start@, key) {
                            bytes::lemma_key_lt_transitive(key, start@, key);
                        }
                    }
                }
                at
            },
            Bound::Excluded(start) => {
                let (found, at) = self.locate(start.as_slice());
                proof {
                    let ghost keys = state::keys_of(self.entries@);
                    assert forall|i: int| 0 <= i < at implies !range.after_start(
                        #[trigger] self.entries@[i].key@,
                    ) by {
                        let key = self.entries@[i].key@;
                        bytes::lemma_key_lt_irreflexive(key);
                        if bytes::key_lt(start@, key) {
                            bytes::lemma_key_lt_transitive(key, start@, key);
                        }
                    }
                    if found {
                        bytes::lemma_key_lt_irreflexive(start@);
                        assert forall|i: int|
                            at < i < self.entries@.len() implies range.after_start(
                            #[trigger] self.entries@[i].key@,
                        ) by {
                            assert(keys[at as int] == start@);
                            assert(keys[i] == self.entries@[i].key@);
                        }
                    }
                }
                let count: usize = self.entries.len();
                if found && at < count {
                    at + 1
                } else {
                    at
                }
            },
            Bound::Unbounded => 0,
        }
    }

    /// The place of the first key that is behind the end of `range`.
    pub(crate) fn end_of(&self, range: &KeyRange) -> (place: usize)
        requires
            self.wf(),
        ensures
            place <= self.entries@.len(),
            forall|i: int|
                0 <= i < self.entries@.len() ==> (range.before_end(
                    #[trigger] self.entries@[i].key@,
                ) <==> i < place),
    {
        match &range.end {
            Bound::Included(end) => {
                let (found, at) = self.locate(end.as_slice());
                proof {
                    let ghost keys = state::keys_of(self.entries@);
                    let from = if found {
                        at + 1
                    } else {
                        at as int
                    };
                    assert forall|i: int| from <= i < self.entries@.len() implies !range.before_end(
                        #[trigger] self.entries@[i].key@,
                    ) by {
                        let key = self.entries@[i].key@;
                        assert(keys[i] == key);
                        if found {
                            assert(keys[at as int] == end@);
                        }
                        assert(bytes::key_lt(end@, key));
                        bytes::lemma_key_lt_irreflexive(key);
                        if bytes::key_lt(key, end@) {
                            bytes::lemma_key_lt_transitive(key, end@, key);
                        }
                    }
                }
                let count: usize = self.entries.len();
                if found && at < count {
                    at + 1
                } else {
                    at
                }
            },
            Bound::Excluded(end) => {
                let (found, at) = self.locate(end.as_slice());
                proof {
                    assert forall|i: int| at <= i < self.entries@.len() implies !range.before_end(
                        #[trigger] self.entries@[i].key@,
                    ) by {
                        let key = self.entries@[i].key@;
                        bytes::lemma_key_lt_irreflexive(key);
                        if bytes::key_lt(key, end@) && key != end@ {
                            bytes::lemma_key_lt_transitive(key, end@, key);
                        }
                    }
                }
                at
            },
            Bound::Unbounded => self.entries.len(),
        }
    }

    /// The keys between two places are the keys of a range, where the places are
    /// those of its ends.
    pub(crate) proof fn lemma_range(&self, range: KeyRange, start: int, end: int)
        requires
            self.wf(),
            0 <= start <= end <= self.entries@.len(),
            forall|i: int|
                0 <= i < self.entries@.len() ==> (range.covers(#[trigger] self.entries@[i].key@)
                    <==> start <= i < end),
        ensures
            self@.keys_in(range) == state::keys_of(self.entries@).subrange(start, end),
    {
        let keys = state::keys_of(self.entries@);
        let part = keys.subrange(start, end);
        let set = self@.contents.dom().filter(|key: Seq<u8>| range.covers(key));
        assert forall|i: int, j: int| 0 <= i < j < part.len() implies bytes::key_lt(
            #[trigger] part[i],
            #[trigger] part[j],
        ) by {
            assert(part[i] == keys[i + start]);
            assert(part[j] == keys[j + start]);
        }
        assert forall|key: Seq<u8>| #[trigger] part.contains(key) <==> set.contains(key) by {
            if part.contains(key) {
                let i = part.index_of(key);
                assert(part[i] == keys[i + start]);
                assert(self.entries@[i + start].key@ == key);
                assert(keys.contains(key));
            }
            if set.contains(key) {
                let i = keys.index_of(key);
                assert(keys[i] == key);
                assert(self.entries@[i].key@ == key);
                assert(part[i - start] == key);
            }
        }
        listing::lemma_listing_is(part, set);
    }

    /// The places of the keys within `range`.
    fn places_in(&self, range: &KeyRange) -> (places: Vec<usize>)
        requires
            self.wf(),
        ensures
            self.has_places(places@),
            self.keys_at(places@) == self@.keys_in(*range),
    {
        let start: usize = self.start_of(range);
        let end: usize = self.end_of(range);
        let mut places: Vec<usize> = Vec::new();
        let mut i: usize = start;
        while i < end
            invariant
                start <= i,
                i <= end || end <= start && i == start,
                end <= self.entries@.len(),
                places@.len() == i - start,
                forall|j: int| 0 <= j < places@.len() ==> #[trigger] places@[j] == start + j,
            decreases end - i,
        {
            places.push(i);
            i = i + 1;
        }
        proof {
            let last = if start <= end {
                end as int
            } else {
                start as int
            };
            self.lemma_range(*range, start as int, last);
            assert(self.keys_at(places@) =~= state::keys_of(self.entries@).subrange(
                start as int,
                last,
            ));
        }
        places
    }

    /// The keys and values at some places.
    fn values_of(&self, places: &Vec<usize>) -> (read: Vec<(Vec<u8>, Vec<u8>)>)
        requires
            self.wf(),
            self.has_places(places@),
        ensures
            model::pairs(read@) == self@.values_at(self.keys_at(places@)),
    {
        let mut read: Vec<(Vec<u8>, Vec<u8>)> = Vec::new();
        let mut i: usize = 0;
        while i < places.len()
            invariant
                self.wf(),
                self.has_places(places@),
                i <= places@.len(),
                read@.len() == i,
                forall|j: int|
                    0 <= j < i ==> {
                        let key = self.keys_at(places@)[j];
                        &&& (#[trigger] read@[j]).0@ == key
                        &&& read@[j].1@ == self@.contents[key].value
                    },
            decreases places@.len() - i,
        {
            let entry = &self.entries[places[i]];
            proof {
                state::lemma_contents_at(self.entries@, places@[i as int] as int);
            }
            read.push((copy_bytes(entry.key.as_slice()), copy_bytes(entry.value.as_slice())));
            i = i + 1;
        }
        assert(model::pairs(read@) =~= self@.values_at(self.keys_at(places@)));
        read
    }

    /// The keys and indexes at some places.
    fn indexes_of(&self, places: &Vec<usize>) -> (read: Vec<(Vec<u8>, KeyIndex)>)
        requires
            self.wf(),
            self.has_places(places@),
        ensures
            model::indexed(read@) == self@.indexes_at(self.keys_at(places@)),
    {
        let mut read: Vec<(Vec<u8>, KeyIndex)> = Vec::new();
        let mut i: usize = 0;
        while i < places.len()
            invariant
                self.wf(),
                self.has_places(places@),
                i <= places@.len(),
                read@.len() == i,
                forall|j: int|
                    0 <= j < i ==> {
                        let key = self.keys_at(places@)[j];
                        &&& (#[trigger] read@[j]).0@ == key
                        &&& read@[j].1 == self@.contents[key].index
                    },
            decreases places@.len() - i,
        {
            let entry = &self.entries[places[i]];
            proof {
                state::lemma_contents_at(self.entries@, places@[i as int] as int);
            }
            read.push((copy_bytes(entry.key.as_slice()), entry.index));
            i = i + 1;
        }
        assert(model::indexed(read@) =~= self@.indexes_at(self.keys_at(places@)));
        read
    }

    /// The keys, values and indexes at some places.
    fn entries_of(&self, places: &Vec<usize>) -> (read: Vec<(Vec<u8>, Vec<u8>, KeyIndex)>)
        requires
            self.wf(),
            self.has_places(places@),
        ensures
            model::triples(read@) == self@.entries_at(self.keys_at(places@)),
    {
        let mut read: Vec<(Vec<u8>, Vec<u8>, KeyIndex)> = Vec::new();
        let mut i: usize = 0;
        while i < places.len()
            invariant
                self.wf(),
                self.has_places(places@),
                i <= places@.len(),
                read@.len() == i,
                forall|j: int|
                    0 <= j < i ==> {
                        let key = self.keys_at(places@)[j];
                        &&& (#[trigger] read@[j]).0@ == key
                        &&& read@[j].1@ == self@.contents[key].value
                        &&& read@[j].2 == self@.contents[key].index
                    },
            decreases places@.len() - i,
        {
            let entry = &self.entries[places[i]];
            proof {
                state::lemma_contents_at(self.entries@, places@[i as int] as int);
            }
            read.push(
                (
                    copy_bytes(entry.key.as_slice()),
                    copy_bytes(entry.value.as_slice()),
                    entry.index,
                ),
            );
            i = i + 1;
        }
        assert(model::triples(read@) =~= self@.entries_at(self.keys_at(places@)));
        read
    }

    /// The values of those of `keys` that the tree holds.
    pub fn get_multiple(&self, keys: &[&[u8]]) -> (read: Vec<(Vec<u8>, Vec<u8>)>)
        requires
            self.wf(),
        ensures
            model::pairs(read@) == self@.values_at(self@.found(bytes::all_of(keys@))),
    {
        let places = self.places_of(keys);
        self.values_of(&places)
    }

    /// The indexes of those of `keys` that the tree holds.
    pub fn get_multiple_indexes(&self, keys: &[&[u8]]) -> (read: Vec<(Vec<u8>, KeyIndex)>)
        requires
            self.wf(),
        ensures
            model::indexed(read@) == self@.indexes_at(self@.found(bytes::all_of(keys@))),
    {
        let places = self.places_of(keys);
        self.indexes_of(&places)
    }

    /// The values and indexes of those of `keys` that the tree holds.
    pub fn get_multiple_with_indexes(&self, keys: &[&[u8]]) -> (read: Vec<
        (Vec<u8>, Vec<u8>, KeyIndex),
    >)
        requires
            self.wf(),
        ensures
            model::triples(read@) == self@.entries_at(self@.found(bytes::all_of(keys@))),
    {
        let places = self.places_of(keys);
        self.entries_of(&places)
    }

    /// The values of the keys within `range`.
    pub fn get_range(&self, range: &KeyRange) -> (read: Vec<(Vec<u8>, Vec<u8>)>)
        requires
            self.wf(),
        ensures
            model::pairs(read@) == self@.values_at(self@.keys_in(*range)),
    {
        let places = self.places_in(range);
        self.values_of(&places)
    }

    /// The indexes of the keys within `range`.
    pub fn get_range_indexes(&self, range: &KeyRange) -> (read: Vec<(Vec<u8>, KeyIndex)>)
        requires
            self.wf(),
        ensures
            model::indexed(read@) == self@.indexes_at(self@.keys_in(*range)),
    {
        let places = self.places_in(range);
        self.indexes_of(&places)
    }

    /// The values and indexes of the keys within `range`.
    pub fn get_range_with_indexes(&self, range: &KeyRange) -> (read: Vec<
        (Vec<u8>, Vec<u8>, KeyIndex),
    >)
        requires
            self.wf(),
        ensures
            model::triples(read@) == self@.entries_at(self@.keys_in(*range)),
    {
        let places = self.places_in(range);
        self.entries_of(&places)
    }

    /// The first key and its value.
    pub fn first(&self) -> (read: Option<(Vec<u8>, Vec<u8>)>)
        requires
            self.wf(),
        ensures
            model::pair_of(read) == self@.with_value(self@.first_of()),
    {
        proof {
            state::lemma_keys_listed(self.entries@);
        }
        if self.entries.len() == 0 {
            None
        } else {
            proof {
                state::lemma_contents_at(self.entries@, 0);
            }
            let entry = &self.entries[0];
            Some((copy_bytes(entry.key.as_slice()), copy_bytes(entry.value.as_slice())))
        }
    }

    /// The last key and its value.
    pub fn last(&self) -> (read: Option<(Vec<u8>, Vec<u8>)>)
        requires
            self.wf(),
        ensures
            model::pair_of(read) == self@.with_value(self@.last_of()),
    {
        proof {
            state::lemma_keys_listed(self.entries@);
        }
        let count: usize = self.entries.len();
        if count == 0 {
            None
        } else {
            proof {
                state::lemma_contents_at(self.entries@, count - 1);
            }
            let entry = &self.entries[count - 1];
            Some((copy_bytes(entry.key.as_slice()), copy_bytes(entry.value.as_slice())))
        }
    }
}

} // verus!
