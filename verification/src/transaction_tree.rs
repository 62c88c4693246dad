//! A tree within a transaction.

use std::collections::HashMap;
use vstd::prelude::*;
use crate::bytes;
use crate::error::{AbortError, CompareAndSwapError, Error};
use crate::model;
use crate::model::{
    KeyIndex, KeyRange, KeySequence, ModificationResult, Operation, ScanEvaluation, SequenceEntry,
    SequenceId, SequenceIndex, SequenceRange, TreeModel,
};
use crate::reduce::ReducedIndex;
use crate::scan;
use crate::sequences;
use crate::tree::{State, StateModel, Vault};

verus! {

/// The number of a transaction.
pub type TransactionId = u64;

/// The file of a tree, opened for a transaction.
pub struct TreeFile {
    pub(crate) name: String,
    pub(crate) file_id: u64,
    pub(crate) vault: Option<Vault>,
    pub(crate) written: bool,
    pub(crate) state: State,
}

/// A tree that is modifiable during a transaction.
pub struct TransactionTree {
    pub(crate) transaction_id: TransactionId,
    pub(crate) tree: TreeFile,
}

/// A tree within a transaction, as a mathematical value.
#[verifier::ext_equal]
pub struct TransactionTreeModel {
    /// The transaction that the tree belongs to.
    pub transaction_id: TransactionId,
    /// The name of the tree.
    pub name: Seq<char>,
    /// The file that was opened.
    pub file_id: u64,
    /// The vault under which the tree is written.
    pub vault: Option<Vault>,
    /// It has been noted that the changes were written to the file.
    pub written: bool,
    /// What readers see.
    pub published: TreeModel,
    /// The tree with the changes of the transaction.
    pub pending: TreeModel,
}

impl TransactionTreeModel {
    /// The same tree after it has been noted whether its changes were written.
    pub open spec fn noted(self, written: bool) -> TransactionTreeModel {
        TransactionTreeModel { written, ..self }
    }

    /// The same tree with other changes, which have not been written.
    pub open spec fn changed(self, pending: TreeModel) -> TransactionTreeModel {
        TransactionTreeModel { pending, written: false, ..self }
    }
}

impl View for TransactionTree {
    type V = TransactionTreeModel;

    open(crate) spec fn view(&self) -> TransactionTreeModel {
        TransactionTreeModel {
            transaction_id: self.transaction_id,
            name: self.tree.name@,
            file_id: self.tree.file_id,
            vault: self.tree.vault,
            written: self.tree.written,
            published: self.tree.state@.published,
            pending: self.tree.state@.pending,
        }
    }
}

/// A tree that takes part in a transaction, whatever its kind.
pub trait AnyTransactionTree {
    /// The tree is well formed.
    spec fn valid(&self) -> bool;

    /// What readers see of the tree, and the tree with the changes.
    spec fn states(&self) -> StateModel;

    /// It has been noted that the changes were written to the file of the tree.
    spec fn stored(&self) -> bool;

    /// The state of the tree.
    fn state(&self) -> (state: &State)
        requires
            self.valid(),
        ensures
            state.wf(),
            state@ == self.states(),
    ;

    /// Takes note of what came of writing the changes to the file of the tree, and
    /// passes it on.
    fn commit(&mut self, outcome: Result<(), Error>) -> (result: Result<(), Error>)
        requires
            old(self).valid(),
        ensures
            final(self).valid(),
            final(self).states() == old(self).states(),
            final(self).stored() == (outcome is Ok),
            result == outcome,
    ;

    /// Drops the changes.
    fn rollback(&mut self)
        requires
            old(self).valid(),
        ensures
            final(self).valid(),
            final(self).states() == (StateModel {
                published: old(self).states().published,
                pending: old(self).states().published,
            }),
    ;
}

impl AnyTransactionTree for TransactionTree {
    open spec fn valid(&self) -> bool {
        self.wf()
    }

    open spec fn states(&self) -> StateModel {
        StateModel { published: self@.published, pending: self@.pending }
    }

    open spec fn stored(&self) -> bool {
        self@.written
    }

    fn state(&self) -> (state: &State) {
        &self.tree.state
    }

    fn commit(&mut self, outcome: Result<(), Error>) -> (result: Result<(), Error>)
        ensures
            final(self)@ == old(self)@.noted(outcome is Ok),
    {
        self.tree.written = outcome.is_ok();
        outcome
    }

    fn rollback(&mut self)
        ensures
            final(self)@ == old(self)@.changed(old(self)@.published),
    {
        self.tree.state.rollback();
        self.tree.written = false;
    }
}

impl TransactionTree {
    /// The state of the tree is well formed.
    pub open(crate) spec fn wf(&self) -> bool {
        self.tree.state.wf()
    }

    /// The name of the tree.
    #[must_use]
    pub fn name(&self) -> (name: &str)
        ensures
            name@ == self@.name,
    {
        self.tree.name.as_str()
    }

    /// What the tree holds is consistent, before and after the changes.
    pub proof fn lemma_wf(&self)
        requires
            self.wf(),
        ensures
            self@.published.consistent(),
            self@.pending.consistent(),
            self@.pending.versioned == self@.published.versioned,
    {
        self.tree.state.lemma_wf();
    }

    /// Returns the latest sequence id.
    #[must_use]
    pub fn current_sequence_id(&self) -> (id: SequenceId)
        requires
            self.wf(),
        ensures
            id == self@.pending.changes.len(),
    {
        self.tree.state.root(true).current_sequence_id()
    }

    /// Scans the tree for changes whose number is contained within `range`. If
    /// `forwards` is true, scanning starts at the first change and scans forward.
    /// Otherwise, scanning starts at the last and scans backwards. `key_evaluator`
    /// is invoked for each change as it is encountered. For all
    /// [`ScanEvaluation::ReadData`] results returned, `data_callback` is invoked
    /// with the key and the value, and hands its state on from one call to the
    /// next, beginning with `start`. Returns the last state.
    pub fn scan_sequences<
        A,
        CallerError,
        KeyEvaluator: Fn(&KeySequence) -> ScanEvaluation,
        DataCallback: Fn(A, &KeySequence, &Vec<u8>) -> Result<A, AbortError<CallerError>>,
    >(
        &self,
        range: &SequenceRange,
        forwards: bool,
        key_evaluator: KeyEvaluator,
        data_callback: DataCallback,
        start: A,
    ) -> (outcome: Result<A, AbortError<CallerError>>)
        requires
            self.wf(),
            sequences::evaluates_changes(key_evaluator),
            sequences::takes_changes(data_callback),
        ensures
            sequences::changes_scanned(
                self@.pending,
                scan::ordered(self@.pending.changes_in(*range), forwards),
                key_evaluator,
                data_callback,
                start,
                outcome,
            ),
    {
        self.tree.state.root(true).scan_sequences(
            range,
            forwards,
            key_evaluator,
            data_callback,
            start,
        )
    }

    /// Retrieves the keys and values associated with one or more `sequences`. The
    /// value retrieved is the value of the key at the given [`SequenceId`]. If a
    /// sequence is not found, it will not appear in the result map. If the value
    /// was removed, None is returned for the value.
    pub fn get_multiple_by_sequence(&self, sequences: &[SequenceId]) -> (result: Result<
        HashMap<SequenceId, (Vec<u8>, Option<Vec<u8>>)>,
        Error,
    >)
        requires
            self.wf(),
        ensures
            result matches Ok(read) && sequences::holds_values(
                read@,
                self@.pending,
                sequences@,
            ),
    {
        Ok(self.tree.state.root(true).get_multiple_by_sequence(sequences))
    }

    /// Retrieves the keys and indexes associated with one or more `sequences`. If
    /// a sequence is not found, it will not appear in the result list.
    pub fn get_multiple_indexes_by_sequence(&self, sequences: &[SequenceId]) -> (result: Result<
        Vec<SequenceIndex>,
        Error,
    >)
        requires
            self.wf(),
        ensures
            result matches Ok(read) && sequences::lists_indexes(
                read@,
                self@.pending,
                sequences@,
            ),
    {
        Ok(self.tree.state.root(true).get_multiple_indexes_by_sequence(sequences))
    }

    /// Retrieves the keys, values, and indexes associated with one or more
    /// `sequences`. The value retrieved is the value of the key at the given
    /// [`SequenceId`]. If a sequence is not found, it will not appear in the
    /// result map.
    pub fn get_multiple_with_indexes_by_sequence(
        &self,
        sequences: &[SequenceId],
    ) -> (result: Result<HashMap<SequenceId, SequenceEntry>, Error>)
        requires
            self.wf(),
        ensures
            result matches Ok(read) && sequences::holds_entries(
                read@,
                self@.pending,
                sequences@,
            ),
    {
        Ok(self.tree.state.root(true).get_multiple_with_indexes_by_sequence(sequences))
    }

    /// Sets `key` to `value`. Returns the newly created index for this key.
    pub fn set(&mut self, key: Vec<u8>, value: Vec<u8>) -> (result: Result<KeyIndex, Error>)
        requires
            old(self).wf(),
        ensures
            final(self).wf(),
            final(self)@ == old(self)@.changed(old(self)@.pending.set(key@, value@)),
            result matches Ok(index) && index == old(self)@.pending.next_index(value@),
    {
        let mut pending = self.tree.state.begin_change();
        let index = pending.set(key, value);
        self.tree.state.end_change(pending);
        self.tree.written = false;
        Ok(index)
    }

    /// Executes a modification. Returns a list of all changed keys.
    pub fn modify(&mut self, keys: Vec<Vec<u8>>, operation: Operation) -> (result: Result<
        Vec<ModificationResult>,
        Error,
    >)
        requires
            old(self).wf(),
            operation.fits(keys@.len()),
        ensures
            final(self).wf(),
            final(self)@ == old(self)@.changed(
                old(self)@.pending.modified(bytes::all_owned(keys@), operation, keys@.len()),
            ),
            result matches Ok(results) && model::changed(results@)
                == old(self)@.pending.modifications(
                bytes::all_owned(keys@),
                operation,
                keys@.len(),
            ),
    {
        let ghost count = keys@.len();
        let ghost all = bytes::all_owned(keys@);
        let mut pending = self.tree.state.begin_change();
        proof {
            model::lemma_modified_kind(old(self)@.pending, all, operation, count);
        }
        let results = pending.modify(keys, operation);
        self.tree.state.end_change(pending);
        self.tree.written = false;
        Ok(results)
    }

    /// Sets `key` to `value`. Returns a tuple containing two elements:
    ///
    /// - The previously stored value, if a value was already present.
    /// - The new/updated index for this key.
    pub fn replace(&mut self, key: Vec<u8>, value: Vec<u8>) -> (result: Result<
        (Option<Vec<u8>>, KeyIndex),
        Error,
    >)
        requires
            old(self).wf(),
        ensures
            final(self).wf(),
            final(self)@ == old(self)@.changed(old(self)@.pending.set(key@, value@)),
            result matches Ok((existing, index)) && {
                &&& bytes::optional(existing) == old(self)@.pending.value_of(key@)
                &&& index == old(self)@.pending.next_index(value@)
            },
    {
        let mut pending = self.tree.state.begin_change();
        let replaced = pending.replace(key, value);
        self.tree.state.end_change(pending);
        self.tree.written = false;
        Ok(replaced)
    }

    /// Returns the current value of `key`. This will return updated information if
    /// it has been previously updated within this transaction.
    pub fn get(&self, key: &[u8]) -> (result: Result<Option<Vec<u8>>, Error>)
        requires
            self.wf(),
        ensures
            result matches Ok(value) && bytes::optional(value) == self@.pending.value_of(key@),
    {
        Ok(self.tree.state.root(true).get(key))
    }

    /// Returns the current index of `key`. This will return updated information if
    /// it has been previously updated within this transaction.
    pub fn get_index(&self, key: &[u8]) -> (result: Result<Option<KeyIndex>, Error>)
        requires
            self.wf(),
        ensures
            result matches Ok(index) && index == self@.pending.index_of(key@),
    {
        Ok(self.tree.state.root(true).get_index(key))
    }

    /// Returns the current value and index of `key`. This will return updated
    /// information if it has been previously updated within this transaction.
    pub fn get_with_index(&self, key: &[u8]) -> (result: Result<
        Option<(Vec<u8>, KeyIndex)>,
        Error,
    >)
        requires
            self.wf(),
        ensures
            result matches Ok(read) && model::entry_of(read) == self@.pending.lookup(key@),
    {
        Ok(self.tree.state.root(true).get_with_index(key))
    }

    /// Removes `key` and returns the existing value and index, if present.
    pub fn remove(&mut self, key: &[u8]) -> (result: Result<Option<(Vec<u8>, KeyIndex)>, Error>)
        requires
            old(self).wf(),
        ensures
            final(self).wf(),
            final(self)@ == old(self)@.changed(old(self)@.pending.remove(key@)),
            result matches Ok(removed) && model::entry_of(removed) == old(self)@.pending.lookup(
                key@,
            ),
    {
        let mut pending = self.tree.state.begin_change();
        let removed = pending.remove(key);
        self.tree.state.end_change(pending);
        self.tree.written = false;
        Ok(removed)
    }

    /// Compares the value of `key` against `expected`. If the values match, key
    /// will be set to the new value if `new` is `Some` or removed if `new` is
    /// `None`.
    pub fn compare_and_swap(
        &mut self,
        key: &[u8],
        expected: Option<&[u8]>,
        new: Option<Vec<u8>>,
    ) -> (result: Result<(), CompareAndSwapError>)
        requires
            old(self).wf(),
        ensures
            final(self).wf(),
            match result {
                Ok(()) => {
                    &&& old(self)@.pending.value_of(key@) == model::expected_bytes(expected)
                    &&& final(self)@ == old(self)@.changed(
                        old(self)@.pending.put(key@, bytes::optional(new)),
                    )
                },
                Err(CompareAndSwapError::Conflict(existing)) => {
                    &&& old(self)@.pending.value_of(key@) != model::expected_bytes(expected)
                    &&& bytes::optional(existing) == old(self)@.pending.value_of(key@)
                    &&& final(self)@ == old(self)@
                },
                Err(CompareAndSwapError::Error(_)) => false,
            },
    {
        let mut pending = self.tree.state.begin_change();
        let result = pending.compare_and_swap(key, expected, new);
        self.tree.state.end_change(pending);
        if result.is_ok() {
            self.tree.written = false;
        }
        result
    }

    /// Retrieves the values of `keys`. If any keys are not found, they will be
    /// omitted from the results.
    pub fn get_multiple(&self, keys: &[&[u8]]) -> (result: Result<Vec<(Vec<u8>, Vec<u8>)>, Error>)
        requires
            self.wf(),
        ensures
            result matches Ok(read) && model::pairs(read@) == self@.pending.values_at(
                self@.pending.found(bytes::all_of(keys@)),
            ),
    {
        Ok(self.tree.state.root(true).get_multiple(keys))
    }

    /// Retrieves the indexes of `keys`. If any keys are not found, they will be
    /// omitted from the results.
    pub fn get_multiple_indexes(&self, keys: &[&[u8]]) -> (result: Result<
        Vec<(Vec<u8>, KeyIndex)>,
        Error,
    >)
        requires
            self.wf(),
        ensures
            result matches Ok(read) && model::indexed(read@) == self@.pending.indexes_at(
                self@.pending.found(bytes::all_of(keys@)),
            ),
    {
        Ok(self.tree.state.root(true).get_multiple_indexes(keys))
    }

    /// Retrieves the values and indexes of `keys`. If any keys are not found, they
    /// will be omitted from the results.
    pub fn get_multiple_with_indexes(&self, keys: &[&[u8]]) -> (result: Result<
        Vec<(Vec<u8>, Vec<u8>, KeyIndex)>,
        Error,
    >)
        requires
            self.wf(),
        ensures
            result matches Ok(read) && model::triples(read@) == self@.pending.entries_at(
                self@.pending.found(bytes::all_of(keys@)),
            ),
    {
        Ok(self.tree.state.root(true).get_multiple_with_indexes(keys))
    }

    /// Retrieves all of the values of keys within `range`.
    pub fn get_range(&self, range: &KeyRange) -> (result: Result<Vec<(Vec<u8>, Vec<u8>)>, Error>)
        requires
            self.wf(),
        ensures
            result matches Ok(read) && model::pairs(read@) == self@.pending.values_at(
                self@.pending.keys_in(*range),
            ),
    {
        Ok(self.tree.state.root(true).get_range(range))
    }

    /// Retrieves all of the indexes of keys within `range`.
    pub fn get_range_indexes(&self, range: &KeyRange) -> (result: Result<
        Vec<(Vec<u8>, KeyIndex)>,
        Error,
    >)
        requires
            self.wf(),
        ensures
            result matches Ok(read) && model::indexed(read@) == self@.pending.indexes_at(
                self@.pending.keys_in(*range),
            ),
    {
        Ok(self.tree.state.root(true).get_range_indexes(range))
    }

    /// Retrieves all of the values and indexes of keys within `range`.
    pub fn get_range_with_indexes(&self, range: &KeyRange) -> (result: Result<
        Vec<(Vec<u8>, Vec<u8>, KeyIndex)>,
        Error,
    >)
        requires
            self.wf(),
        ensures
            result matches Ok(read) && model::triples(read@) == self@.pending.entries_at(
                self@.pending.keys_in(*range),
            ),
    {
        Ok(self.tree.state.root(true).get_range_with_indexes(range))
    }

    /// Scans the tree across all nodes that contain keys within `range`.
    ///
    /// If `forwards` is true, the tree is scanned in ascending order. Otherwise,
    /// the tree is scanned in descending order.
    ///
    /// `node_evaluator` is invoked for each node to determine if the node should be
    /// traversed. The parameters to the callback are:
    ///
    /// - the maximum key stored within the node,
    /// - the reduced index value of the node,
    /// - the depth of the node. The root nodes are depth 0.
    ///
    /// To read the keys of a node, return [`ScanEvaluation::ReadData`].
    ///
    /// `key_evaluator` is invoked for each key encountered that is contained within
    /// `range`. For all [`ScanEvaluation::ReadData`] results returned, `callback`
    /// is invoked with the key, its index and its value. It hands its state on from
    /// one call to the next, beginning with `start`. Returns the last state.
    pub fn scan<
        A,
        CallerError,
        NodeEvaluator: Fn(&Vec<u8>, &ReducedIndex, usize) -> ScanEvaluation,
        KeyEvaluator: Fn(&Vec<u8>, &KeyIndex) -> ScanEvaluation,
        DataCallback: Fn(A, &Vec<u8>, &KeyIndex, &Vec<u8>) -> Result<A, AbortError<CallerError>>,
    >(
        &self,
        range: &KeyRange,
        forwards: bool,
        node_evaluator: NodeEvaluator,
        key_evaluator: KeyEvaluator,
        callback: DataCallback,
        start: A,
    ) -> (outcome: Result<A, AbortError<CallerError>>)
        requires
            self.wf(),
            scan::evaluates_nodes(node_evaluator),
            scan::evaluates_keys(key_evaluator),
            scan::takes_data(callback),
        ensures
            scan::nodes_scanned(
                self@.pending,
                scan::ordered(self@.pending.nodes_in(*range), forwards),
                *range,
                forwards,
                node_evaluator,
                key_evaluator,
                callback,
                start,
                outcome,
            ),
    {
        self.tree.state.root(true).scan(
            range,
            forwards,
            node_evaluator,
            key_evaluator,
            callback,
            start,
        )
    }

    /// Returns the reduced index over the provided range. This is an aggregation
    /// that reduces the indexes of each node and then the results, producing a
    /// single value.
    ///
    /// If no keys match, the returned result is what
    /// [`rereduce()`](crate::reduce::rereduce) returns when an empty slice is
    /// provided.
    pub fn reduce(&self, range: &KeyRange) -> (result: Result<Option<ReducedIndex>, Error>)
        requires
            self.wf(),
        ensures
            result matches Ok(Some(reduced)) && reduced == ReducedIndex::of(
                self@.pending.key_indexes(self@.pending.keys_in(*range)),
            ),
    {
        Ok(Some(self.tree.state.root(true).reduce(range)))
    }

    /// Returns the first key of the tree.
    pub fn first_key(&self) -> (result: Result<Option<Vec<u8>>, Error>)
        requires
            self.wf(),
        ensures
            result matches Ok(key) && bytes::optional(key) == self@.pending.first_of(),
    {
        match self.tree.state.root(true).first() {
            Some((key, _)) => Ok(Some(key)),
            None => Ok(None),
        }
    }

    /// Returns the first key and value of the tree.
    pub fn first(&self) -> (result: Result<Option<(Vec<u8>, Vec<u8>)>, Error>)
        requires
            self.wf(),
        ensures
            result matches Ok(read) && model::pair_of(read) == self@.pending.with_value(
                self@.pending.first_of(),
            ),
    {
        Ok(self.tree.state.root(true).first())
    }

    /// Returns the last key of the tree.
    pub fn last_key(&self) -> (result: Result<Option<Vec<u8>>, Error>)
        requires
            self.wf(),
        ensures
            result matches Ok(key) && bytes::optional(key) == self@.pending.last_of(),
    {
        match self.tree.state.root(true).last() {
            Some((key, _)) => Ok(Some(key)),
            None => Ok(None),
        }
    }

    /// Returns the last key and value of the tree.
    pub fn last(&self) -> (result: Result<Option<(Vec<u8>, Vec<u8>)>, Error>)
        requires
            self.wf(),
        ensures
            result matches Ok(read) && model::pair_of(read) == self@.pending.with_value(
                self@.pending.last_of(),
            ),
    {
        Ok(self.tree.state.root(true).last())
    }
}

} // verus!
