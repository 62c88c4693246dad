//! Reading the changes that a versioned tree keeps.

use std::collections::HashMap;
use vstd::prelude::*;
use crate::bytes;
use crate::bytes::{copy_bytes, copy_optional};
use crate::error::AbortError;
use crate::model::{
    Bound, KeyIndex, KeySequence, ScanEvaluation, SequenceEntry, SequenceId, SequenceIndex,
    SequenceRange, TreeModel,
};
use crate::scan;
use crate::state;
use crate::state::TreeState;

verus! {

broadcast use vstd::std_specs::hash::group_hash_axioms;

impl SequenceIndex {
    /// This is what `tree` keeps about change number `id`.
    pub open spec fn describes(self, tree: TreeModel, id: u64) -> bool {
        &&& self.sequence == id
        &&& self.key@ == tree.changes[id - 1].key
        &&& self.index == tree.index_at(id as int)
    }
}

/// `read` holds those of `ids` that are changes of `tree`, each with its key and
/// its value.
pub open spec fn holds_values(
    read: Map<SequenceId, (Vec<u8>, Option<Vec<u8>>)>,
    tree: TreeModel,
    ids: Seq<SequenceId>,
) -> bool {
    &&& forall|id: SequenceId| #[trigger]
        read.contains_key(id) <==> ids.contains(id) && tree.has_change(id as int)
    &&& forall|id: SequenceId| #[trigger]
        read.contains_key(id) ==> {
            &&& read[id].0@ == tree.changes[id - 1].key
            &&& bytes::optional(read[id].1) == tree.changes[id - 1].value
        }
}

/// `read` holds those of `ids` that are changes of `tree`, each with its key, its
/// index and its value.
pub open spec fn holds_entries(
    read: Map<SequenceId, SequenceEntry>,
    tree: TreeModel,
    ids: Seq<SequenceId>,
) -> bool {
    &&& forall|id: SequenceId| #[trigger]
        read.contains_key(id) <==> ids.contains(id) && tree.has_change(id as int)
    &&& forall|id: SequenceId| #[trigger]
        read.contains_key(id) ==> {
            &&& read[id].index.describes(tree, id)
            &&& bytes::optional(read[id].value) == tree.changes[id - 1].value
        }
}

/// `read` describes those of `ids` that are changes of `tree`, in the given order.
pub open spec fn lists_indexes(
    read: Seq<SequenceIndex>,
    tree: TreeModel,
    ids: Seq<SequenceId>,
) -> bool {
    let made = tree.made(ids);
    &&& read.len() == made.len()
    &&& forall|i: int| 0 <= i < read.len() ==> (#[trigger] read[i]).describes(tree, made[i])
}

impl TreeModel {
    /// The changes within `range`, from the first on.
    pub open spec fn changes_in(self, range: SequenceRange) -> Seq<int> {
        Seq::new(self.changes.len(), |i: int| i + 1).filter(|id: int| range.covers(id))
    }
}

impl SequenceRange {
    /// Whether change number `id` lies within the range.
    pub fn contains(&self, id: SequenceId) -> (inside: bool)
        ensures
            inside == self.covers(id as int),
    {
        let after_start = match self.start {
            Bound::Included(start) => start <= id,
            Bound::Excluded(start) => start < id,
            Bound::Unbounded => true,
        };
        let before_end = match self.end {
            Bound::Included(end) => id <= end,
            Bound::Excluded(end) => id < end,
            Bound::Unbounded => true,
        };
        after_start && before_end
    }
}

/// `evaluator` can be asked about any change.
pub open spec fn evaluates_changes<K: Fn(&KeySequence) -> ScanEvaluation>(evaluator: K) -> bool {
    forall|change: KeySequence| #[trigger] call_requires(evaluator, (&change,))
}

/// `callback` takes any change and value.
pub open spec fn takes_changes<A, E, D: Fn(A, &KeySequence, &Vec<u8>) -> Result<A, AbortError<E>>>(
    callback: D,
) -> bool {
    forall|state: A, change: KeySequence, value: Vec<u8>| #[trigger]
        call_requires(callback, (state, &change, &value))
}

/// `evaluation` is an answer of `evaluator` about change number `id`.
pub open spec fn change_answer<K: Fn(&KeySequence) -> ScanEvaluation>(
    evaluator: K,
    key: Seq<u8>,
    id: int,
    evaluation: ScanEvaluation,
) -> bool {
    exists|change: KeySequence|
        {
            &&& change.key@ == key
            &&& change.sequence == id
            &&& #[trigger] call_ensures(evaluator, (&change,), evaluation)
        }
}

/// `answer` is an answer of `callback` to change number `id`. It gets the value
/// that the change has stored, or no bytes where the change has removed the key.
pub open spec fn change_data_answer<
    A,
    E,
    D: Fn(A, &KeySequence, &Vec<u8>) -> Result<A, AbortError<E>>,
>(
    callback: D,
    state: A,
    key: Seq<u8>,
    id: int,
    value: Option<Seq<u8>>,
    answer: Result<A, AbortError<E>>,
) -> bool {
    exists|change: KeySequence, bytes: Vec<u8>|
        {
            &&& change.key@ == key
            &&& change.sequence == id
            &&& bytes@ == match value {
                Some(value) => value,
                None => Seq::empty(),
            }
            &&& #[trigger] call_ensures(callback, (state, &change, &bytes), answer)
        }
}

/// `outcome` is what comes of walking over the changes `ids` in turn. The
/// evaluator is asked about each. The callback gets those that are to be read, and
/// hands its state on from one to the next.
pub open spec fn changes_scanned<
    A,
    E,
    K: Fn(&KeySequence) -> ScanEvaluation,
    D: Fn(A, &KeySequence, &Vec<u8>) -> Result<A, AbortError<E>>,
>(
    tree: TreeModel,
    ids: Seq<int>,
    evaluator: K,
    callback: D,
    state: A,
    outcome: Result<A, AbortError<E>>,
) -> bool
    decreases ids.len(),
{
    if ids.len() == 0 {
        outcome == Ok::<A, AbortError<E>>(state)
    } else {
        let change = tree.changes[ids[0] - 1];
        let rest = ids.drop_first();
        exists|evaluation: ScanEvaluation|
            {
                &&& #[trigger] change_answer(evaluator, change.key, ids[0], evaluation)
                &&& match evaluation {
                    ScanEvaluation::Stop => outcome == Ok::<A, AbortError<E>>(state),
                    ScanEvaluation::Skip => changes_scanned(
                        tree,
                        rest,
                        evaluator,
                        callback,
                        state,
                        outcome,
                    ),
                    ScanEvaluation::ReadData => exists|answer: Result<A, AbortError<E>>|
                        {
                            &&& #[trigger] change_data_answer(
                                callback,
                                state,
                                change.key,
                                ids[0],
                                change.value,
                                answer,
                            )
                            &&& match answer {
                                Ok(next) => changes_scanned(
                                    tree,
                                    rest,
                                    evaluator,
                                    callback,
                                    next,
                                    outcome,
                                ),
                                Err(error) => outcome == Err::<A, AbortError<E>>(error),
                            }
                        },
                }
            }
    }
}

impl TreeState {
    /// The place of change number `id` among the changes, if it has been made.
    fn place_of(&self, id: SequenceId) -> (place: Option<usize>)
        ensures
            match place {
                Some(place) => {
                    &&& self@.has_change(id as int)
                    &&& place == id - 1
                    &&& place < self.changes@.len()
                    &&& self@.changes[id - 1] == state::change_of(self.changes@[place as int])
                },
                None => !self@.has_change(id as int),
            },
    {
        let count: usize = self.changes.len();
        if 1 <= id && id <= count as u64 {
            Some((id - 1) as usize)
        } else {
            None
        }
    }

    /// The index of the change at `place`.
    fn describe(&self, place: usize) -> (index: SequenceIndex)
        requires
            place < self.changes@.len(),
        ensures
            index.describes(self@, (place + 1) as u64),
    {
        assert(self.changes.len() == self.changes@.len());
        let id: SequenceId = place as u64 + 1;
        let record = &self.changes[place];
        assert(self@.changes[id - 1] == state::change_of(self.changes@[place as int]));
        let index = match &record.value {
            Some(value) => {
                let value_length: usize = value.len();
                Some(KeyIndex { sequence_id: Some(id), value_length: value_length as u64 })
            },
            None => None,
        };
        SequenceIndex { key: copy_bytes(record.key.as_slice()), sequence: id, index }
    }

    /// The key and the value of each of `ids` that has been made.
    pub fn get_multiple_by_sequence(&self, ids: &[SequenceId]) -> (read: HashMap<
        SequenceId,
        (Vec<u8>, Option<Vec<u8>>),
    >)
        ensures
            holds_values(read@, self@, ids@),
    {
        let mut read: HashMap<SequenceId, (Vec<u8>, Option<Vec<u8>>)> = HashMap::new();
        let mut i: usize = 0;
        assert(ids@.take(0) =~= Seq::empty());
        while i < ids.len()
            invariant
                i <= ids@.len(),
                holds_values(read@, self@, ids@.take(i as int)),
            decreases ids@.len() - i,
        {
            let id: SequenceId = ids[i];
            proof {
                assert(ids@.take(i + 1) =~= ids@.take(i as int).push(id));
                assert forall|other: SequenceId| #[trigger]
                    ids@.take(i + 1).contains(other) <==> ids@.take(i as int).contains(other)
                        || other == id by {
                    if ids@.take(i as int).contains(other) {
                        let j = ids@.take(i as int).index_of(other);
                        assert(ids@.take(i + 1)[j] == other);
                    }
                    assert(ids@.take(i + 1)[i as int] == id);
                }
            }
            if let Some(place) = self.place_of(id) {
                let record = &self.changes[place];
                read.insert(
                    id,
                    (copy_bytes(record.key.as_slice()), copy_optional(&record.value)),
                );
            }
            i = i + 1;
        }
        assert(ids@.take(i as int) =~= ids@);
        read
    }

    /// The index of each of `ids` that has been made.
    pub fn get_multiple_indexes_by_sequence(&self, ids: &[SequenceId]) -> (read: Vec<
        SequenceIndex,
    >)
        ensures
            lists_indexes(read@, self@, ids@),
    {
        let ghost made = |id: u64| self@.has_change(id as int);
        let mut read: Vec<SequenceIndex> = Vec::new();
        let mut i: usize = 0;
        assert(ids@.take(0).filter(made) =~= Seq::empty());
        while i < ids.len()
            invariant
                i <= ids@.len(),
                made == (|id: u64| self@.has_change(id as int)),
                lists_indexes(read@, self@, ids@.take(i as int)),
            decreases ids@.len() - i,
        {
            let id: SequenceId = ids[i];
            proof {
                assert(ids@.take(i + 1).drop_last() =~= ids@.take(i as int));
                assert(ids@.take(i + 1).last() == id);
                reveal(Seq::filter);
            }
            if let Some(place) = self.place_of(id) {
                read.push(self.describe(place));
            }
            i = i + 1;
        }
        assert(ids@.take(i as int) =~= ids@);
        read
    }

    /// The key, the index and the value of each of `ids` that has been made.
    pub fn get_multiple_with_indexes_by_sequence(&self, ids: &[SequenceId]) -> (read: HashMap<
        SequenceId,
        SequenceEntry,
    >)
        ensures
            holds_entries(read@, self@, ids@),
    {
        let mut read: HashMap<SequenceId, SequenceEntry> = HashMap::new();
        let mut i: usize = 0;
        assert(ids@.take(0) =~= Seq::empty());
        while i < ids.len()
            invariant
                i <= ids@.len(),
                holds_entries(read@, self@, ids@.take(i as int)),
            decreases ids@.len() - i,
        {
            let id: SequenceId = ids[i];
            proof {
                assert(ids@.take(i + 1) =~= ids@.take(i as int).push(id));
                assert forall|other: SequenceId| #[trigger]
                    ids@.take(i + 1).contains(other) <==> ids@.take(i as int).contains(other)
                        || other == id by {
                    if ids@.take(i as int).contains(other) {
                        let j = ids@.take(i as int).index_of(other);
                        assert(ids@.take(i + 1)[j] == other);
                    }
                    assert(ids@.take(i + 1)[i as int] == id);
                }
            }
            if let Some(place) = self.place_of(id) {
                let index = self.describe(place);
                let record = &self.changes[place];
                read.insert(id, SequenceEntry { index, value: copy_optional(&record.value) });
            }
            i = i + 1;
        }
        assert(ids@.take(i as int) =~= ids@);
        read
    }

    /// The places of the changes within `range`, from the first to the last or
    /// from the last to the first.
    fn change_places(&self, range: &SequenceRange, forwards: bool) -> (places: Vec<usize>)
        ensures
            places@.len() == self@.changes_in(*range).len(),
            forall|i: int|
                0 <= i < places@.len() ==> {
                    &&& #[trigger] places@[i] + 1 == scan::ordered(
                        self@.changes_in(*range),
                        forwards,
                    )[i]
                    &&& places@[i] < self.changes@.len()
                },
    {
        let ghost all = Seq::new(self.changes@.len(), |i: int| i + 1);
        let ghost covered = |id: int| range.covers(id);
        let mut found: Vec<usize> = Vec::new();
        let mut i: usize = 0;
        assert(all.take(0).filter(covered) =~= Seq::empty());
        while i < self.changes.len()
            invariant
                i <= self.changes@.len(),
                all == Seq::new(self.changes@.len(), |i: int| i + 1),
                covered == (|id: int| range.covers(id)),
                found@.len() == all.take(i as int).filter(covered).len(),
                forall|j: int|
                    0 <= j < found@.len() ==> {
                        &&& #[trigger] found@[j] + 1 == all.take(i as int).filter(covered)[j]
                        &&& found@[j] < self.changes@.len()
                    },
            decreases self.changes@.len() - i,
        {
            proof {
                assert(all.take(i + 1).drop_last() =~= all.take(i as int));
                assert(all.take(i + 1).last() == i + 1);
                reveal(Seq::filter);
            }
            assert(self.changes.len() == self.changes@.len());
            if range.contains(i as u64 + 1) {
                found.push(i);
            }
            i = i + 1;
        }
        proof {
            assert(all.take(i as int) =~= all);
            assert(self@.changes.len() == self.changes@.len());
        }
        if forwards {
            return found;
        }
        let mut places: Vec<usize> = Vec::new();
        let mut n: usize = 0;
        while n < found.len()
            invariant
                n <= found@.len(),
                places@.len() == n,
                forall|j: int|
                    0 <= j < n ==> #[trigger] places@[j] == found@[found@.len() - 1 - j],
            decreases found@.len() - n,
        {
            places.push(found[found.len() - 1 - n]);
            n = n + 1;
        }
        places
    }

    /// Walks over the changes within `range`.
    pub fn scan_sequences<
        A,
        E,
        K: Fn(&KeySequence) -> ScanEvaluation,
        D: Fn(A, &KeySequence, &Vec<u8>) -> Result<A, AbortError<E>>,
    >(
        &self,
        range: &SequenceRange,
        forwards: bool,
        key_evaluator: K,
        data_callback: D,
        start: A,
    ) -> (outcome: Result<A, AbortError<E>>)
        requires
            evaluates_changes(key_evaluator),
            takes_changes(data_callback),
        ensures
            changes_scanned(
                self@,
                scan::ordered(self@.changes_in(*range), forwards),
                key_evaluator,
                data_callback,
                start,
                outcome,
            ),
    {
        let places = self.change_places(range, forwards);
        let ghost ids = scan::ordered(self@.changes_in(*range), forwards);
        let mut state: A = start;
        let mut i: usize = 0;
        assert(ids.skip(0) =~= ids);
        while i < places.len()
            invariant
                evaluates_changes(key_evaluator),
                takes_changes(data_callback),
                i <= places@.len(),
                ids == scan::ordered(self@.changes_in(*range), forwards),
                places@.len() == ids.len(),
                forall|j: int|
                    0 <= j < places@.len() ==> {
                        &&& #[trigger] places@[j] + 1 == ids[j]
                        &&& places@[j] < self.changes@.len()
                    },
                forall|outcome: Result<A, AbortError<E>>|
                    #![trigger changes_scanned(
                        self@,
                        ids,
                        key_evaluator,
                        data_callback,
                        start,
                        outcome,
                    )]
                    changes_scanned(
                        self@,
                        ids.skip(i as int),
                        key_evaluator,
                        data_callback,
                        state,
                        outcome,
                    ) ==> changes_scanned(
                        self@,
                        ids,
                        key_evaluator,
                        data_callback,
                        start,
                        outcome,
                    ),
            decreases places@.len() - i,
        {
            let place: usize = places[i];
            assert(self.changes.len() == self.changes@.len());
            let record = &self.changes[place];
            let id: SequenceId = place as u64 + 1;
            let ghost left = ids.skip(i as int);
            let ghost now = self@.changes[left[0] - 1];
            proof {
                assert(ids.skip(i as int).drop_first() =~= ids.skip(i + 1));
                assert(ids.skip(i as int)[0] == id);
                assert(self@.changes[id - 1] == state::change_of(*record));
                assert(now == state::change_of(*record));
            }
            let change = KeySequence { key: copy_bytes(record.key.as_slice()), sequence: id };
            let evaluation = key_evaluator(&change);
            assert(change_answer(key_evaluator, now.key, left[0], evaluation));
            match evaluation {
                ScanEvaluation::Stop => {
                    let outcome = Ok(state);
                    assert(changes_scanned(
                        self@,
                        ids,
                        key_evaluator,
                        data_callback,
                        start,
                        outcome,
                    ));
                    return outcome;
                },
                ScanEvaluation::Skip => {},
                ScanEvaluation::ReadData => {
                    let value = match &record.value {
                        Some(value) => copy_bytes(value.as_slice()),
                        None => Vec::new(),
                    };
                    let ghost before = state;
                    let answer = data_callback(state, &change, &value);
                    assert(change_data_answer(
                        data_callback,
                        before,
                        now.key,
                        left[0],
                        now.value,
                        answer,
                    ));
                    match answer {
                        Ok(next) => {
                            state = next;
                        },
                        Err(error) => {
                            let outcome = Err(error);
                            assert(changes_scanned(
                                self@,
                                ids,
                                key_evaluator,
                                data_callback,
                                start,
                                outcome,
                            ));
                            return outcome;
                        },
                    }
                },
            }
            i = i + 1;
        }
        let outcome = Ok(state);
        assert(ids.skip(i as int).len() == 0);
        assert(changes_scanned(self@, ids, key_evaluator, data_callback, start, outcome));
        outcome
    }
}

} // verus!
