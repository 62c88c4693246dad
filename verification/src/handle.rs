//! A handle on a tree, for reads and for changes that are transactions of their own.
//!
//! Such a change is written as a transaction of several trees is: see
//! [`commit`](crate::transaction::ExecutingTransaction::commit).

use std::collections::HashMap;
use vstd::prelude::*;
use crate::bytes;
use crate::database::{Ending, Reading, Refusal, RootsModel};
use crate::error::{AbortError, CompareAndSwapError, Error};
use crate::files;
use crate::files::FileManager;
use crate::model;
use crate::model::{
    KeyIndex, KeyRange, KeySequence, ModificationResult, Operation, ScanEvaluation, SequenceEntry,
    SequenceId, SequenceIndex, SequenceRange, TreeModel,
};
use crate::names;
use crate::names::check_name;
use crate::reduce::{rereduce, ReducedIndex};
use crate::retry;
use crate::retry::{catch_compaction_and_retry, catch_compaction_and_retry_abortable};
use crate::roots;
use crate::roots::{Roots, TreePath, TreeReader};
use crate::scan;
use crate::sequences;
use crate::state::TreeState;
use crate::transaction;
use crate::transaction::{ExecutingTransaction, TransactionModel};
use crate::tree::{RootModel, TreeRoot, Vault};

verus! {

/// A named collection of keys and values.
pub struct Tree {
    name: String,
    versioned: bool,
    vault: Option<Vault>,
}

impl View for Tree {
    type V = RootModel;

    closed spec fn view(&self) -> RootModel {
        RootModel { name: self.name@, versioned: self.versioned, vault: self.vault }
    }
}

impl Clone for Tree {
    fn clone(&self) -> (tree: Tree)
        ensures
            tree@ == self@,
    {
        Tree { name: self.name.clone(), versioned: self.versioned, vault: self.vault }
    }
}

impl Roots {
    /// Opens a tree named `name`.
    ///
    /// ## Errors
    ///
    /// - [`ErrorKind::InvalidTreeName`]: The name contained an invalid character.
    pub fn tree(&mut self, root: TreeRoot) -> (result: Result<Tree, Error>)
        requires
            old(self).wf(),
            old(self)@.agrees(root@),
        ensures
            final(self).wf(),
            match result {
                Ok(tree) => {
                    &&& names::valid_name(root@.name)
                    &&& tree.wf()
                    &&& tree@ == root@
                    &&& final(self)@ == old(self)@.with_tree(root@)
                },
                Err(error) => {
                    &&& !names::valid_name(root@.name)
                    &&& error.kind is InvalidTreeName
                    &&& final(self)@ == old(self)@
                },
            },
    {
        match check_name(root.name.as_str()) {
            Ok(()) => {},
            Err(error) => {
                return Err(error);
            },
        }
        self.make_tree(&root);
        Ok(Tree { name: root.name, versioned: root.versioned, vault: root.vault })
    }
}

/// A transaction over the tree of `root` could not begin.
pub open spec fn begin_refused(
    before: RootsModel,
    root: RootModel,
    error: Error,
    after: RootsModel,
) -> bool {
    if before.holds_lock(root.name) {
        error.kind is TreeLocked && after == before
    } else {
        &&& before.refusal(root) matches Some(why) && roots::is_refusal(error, why)
        &&& after == before.numbered().with_kind(root)
    }
}

/// What comes of a change to the tree of `root` that leaves it as `tree`. The tree is
/// written and then the change is pushed to the log; if either fails, so does the change.
pub open spec fn change_result<M: FileManager>(
    before: RootsModel,
    files_before: M,
    root: RootModel,
    tree: TreeModel,
    failure: Option<Error>,
    after: RootsModel,
    files_after: M,
) -> bool {
    if before.admits(root) {
        &&& files::recorded(
            files_before,
            seq![before.change_tree(root, tree)],
            before.change_entry(root),
            outcome_of(failure),
            files_after,
        )
        &&& after == match failure {
            None => before.applied(root, tree),
            Some(_) => before.unapplied(root, tree),
        }
    } else {
        &&& failure matches Some(error) && begin_refused(before, root, error, after)
        &&& files_after == files_before
    }
}

/// The outcome of writing and pushing a change, by the failure of the change.
pub open spec fn outcome_of(failure: Option<Error>) -> Result<(), Error> {
    match failure {
        None => Ok(()),
        Some(error) => Err(error),
    }
}

/// The failure of a call, if it has failed.
pub open spec fn failure_of<T>(result: Result<T, Error>) -> Option<Error> {
    match result {
        Ok(_) => None,
        Err(error) => Some(error),
    }
}

/// A read has failed because the file cannot be opened, and `why`.
pub open spec fn refused<T>(result: Result<T, Error>, why: Refusal) -> bool {
    result matches Err(error) && roots::is_refusal(error, why)
}

/// As [`refused`], for a read that the caller's own code may abort.
pub open spec fn refused_abortable<T, E>(
    result: Result<T, AbortError<E>>,
    why: Refusal,
) -> bool {
    result matches Err(AbortError::Nebari(error)) && roots::is_refusal(error, why)
}

/// A read has failed because there is no file.
pub open spec fn missing<T>(result: Result<T, Error>) -> bool {
    result matches Err(error) && error.kind is FileNotFound
}

/// As [`missing`], for a read that the caller's own code may abort.
pub open spec fn missing_abortable<T, E>(result: Result<T, AbortError<E>>) -> bool {
    result matches Err(AbortError::Nebari(error)) && error.kind is FileNotFound
}

/// A transaction over a single tree that is committed does what it says.
proof fn lemma_applied(before: RootsModel, root: RootModel, tree: TreeModel)
    requires
        before.admits(root),
        before.agrees(root),
        before.consistent(),
    ensures
        ({
            let roots = seq![root];
            let transaction = before.transaction_over(roots);
            let changed = TransactionModel {
                trees: transaction.trees.update(0, transaction.trees[0].changed(tree)),
                ..transaction
            };
            &&& transaction.trees.len() == 1
            &&& transaction.trees[0].pending == before.current(root)
            &&& before.begun(roots).committed(changed) == before.applied(root, tree)
            &&& before.begun(roots).rolled_back(changed) == before.abandoned(root)
            &&& before.begun(roots).uncommitted(changed) == before.unapplied(root, tree)
            &&& before.begun(roots).holds_all(transaction.hold)
            &&& changed.trees == seq![before.change_tree(root, tree)]
            &&& changed.entry == before.change_entry(root)
        }),
{
    let roots = seq![root];
    let id = before.next_transaction;
    let asked = before.numbered().with_kind(root);
    let made = asked.with_file(root);
    assert(before.numbered().with_kinds(roots, 0) == before.numbered());
    assert(before.numbered().with_kinds(roots, 1) == asked);
    assert(asked.with_files(roots, 0) == asked);
    assert(asked.with_files(roots, 1) == made);
    let begun = before.begun(roots);
    assert(begun == made.locking(roots, 1, id));
    assert forall|name: Seq<char>| #[trigger] RootsModel::named(roots, 1, name) <==> name
        == root.name by {
        assert(roots[0].name == root.name);
    }
    let transaction = before.transaction_over(roots);
    let changed = TransactionModel {
        trees: transaction.trees.update(0, transaction.trees[0].changed(tree)),
        ..transaction
    };
    let opened = changed.trees[0];
    assert(made.trees.contains_key(root.name));
    assert(made.trees[root.name].published.versioned == root.versioned);
    assert(begun.holds(opened));
    assert(transaction.entry.trees =~= seq![root.name]);
    assert(transaction.hold.names =~= seq![root.name]);
    assert(seq![root.name][0] == root.name);
    let logged = begun.logged(transaction.entry);
    assert(logged.all_ended(changed.trees, Ending::Published, 0) == logged);
    assert(logged.all_ended(changed.trees, Ending::Published, 1) == logged.ended(
        opened,
        Ending::Published,
    ));
    let expected = before.applied(root, tree);
    let committed = begun.committed(changed);
    assert(committed.trees =~= expected.trees);
    assert(committed.log =~= expected.log);
    assert(committed.locks =~= expected.locks);
    assert(committed =~= expected);
    assert(begun.all_ended(changed.trees, Ending::RolledBack, 0) == begun);
    assert(begun.all_ended(changed.trees, Ending::RolledBack, 1) == begun.ended(
        opened,
        Ending::RolledBack,
    ));
    let abandoned = before.abandoned(root);
    let rolled_back = begun.rolled_back(changed);
    assert(rolled_back.trees =~= abandoned.trees);
    assert(rolled_back.locks =~= abandoned.locks);
    assert(rolled_back =~= abandoned);
    assert(begun.all_ended(changed.trees, Ending::Kept, 0) == begun);
    assert(begun.all_ended(changed.trees, Ending::Kept, 1) == begun.ended(opened, Ending::Kept));
    let unapplied = before.unapplied(root, tree);
    let uncommitted = begun.uncommitted(changed);
    assert(uncommitted.trees =~= unapplied.trees);
    assert(uncommitted.locks =~= unapplied.locks);
    assert(uncommitted =~= unapplied);
    assert(changed.trees =~= seq![before.change_tree(root, tree)]);
}

/// A transaction is rolled back alike, whether its tree was changed or not.
proof fn lemma_rollback_alike(roots: RootsModel, transaction: TransactionModel)
    requires
        transaction.trees.len() == 1,
    ensures
        ({
            let changed = TransactionModel {
                trees: transaction.trees.update(
                    0,
                    transaction.trees[0].changed(transaction.trees[0].pending),
                ),
                ..transaction
            };
            roots.rolled_back(changed) == roots.rolled_back(transaction)
        }),
{
    let changed = transaction.trees.update(
        0,
        transaction.trees[0].changed(transaction.trees[0].pending),
    );
    assert(roots.all_ended(changed, Ending::RolledBack, 0) == roots);
    assert(roots.all_ended(transaction.trees, Ending::RolledBack, 0) == roots);
    assert(roots.all_ended(changed, Ending::RolledBack, 1) == roots.ended(
        changed[0],
        Ending::RolledBack,
    ));
    assert(roots.all_ended(transaction.trees, Ending::RolledBack, 1) == roots.ended(
        transaction.trees[0],
        Ending::RolledBack,
    ));
}

impl Tree {
    /// The tree has a valid name.
    pub open spec fn wf(&self) -> bool {
        names::valid_name(self@.name)
    }

    /// Returns the name of the tree.
    #[must_use]
    pub fn name(&self) -> (name: &str)
        ensures
            name@ == self@.name,
    {
        self.name.as_str()
    }

    /// Describes the tree, so that a transaction can begin over it.
    pub fn root(&self) -> (root: TreeRoot)
        ensures
            root@ == self@,
    {
        TreeRoot { name: self.name.clone(), versioned: self.versioned, vault: self.vault }
    }

    /// Returns the path to the file for this tree.
    #[must_use]
    pub fn path(&self, roots: &Roots) -> (path: TreePath)
        ensures
            roots::is_tree_path(path, roots@.path, self@.name),
    {
        roots.tree_path(self.name())
    }

    /// Returns the number of keys stored in the tree. Does not include deleted keys.
    /// `executing` is the transaction that holds the tree, if one does: its changes
    /// count.
    #[must_use]
    pub fn count(&self, roots: &Roots, executing: Option<&ExecutingTransaction>) -> (count: u64)
        requires
            roots.wf(),
            executing matches Some(transaction) ==> transaction.wf(),
        ensures
            count == match roots@.latest(self@.name, transaction::model_of(executing)) {
                Some(tree) => tree.contents.dom().len(),
                None => 0,
            },
    {
        match roots.latest(self.name.as_str(), executing) {
            Some(state) => state.count(),
            None => 0,
        }
    }

    /// Begins a transaction over this tree.
    fn begin_transaction(&self, roots: &mut Roots) -> (result: Result<ExecutingTransaction, Error>)
        requires
            self.wf(),
            old(roots).wf(),
            old(roots)@.agrees(self@),
        ensures
            final(roots).wf(),
            match result {
                Ok(transaction) => {
                    &&& old(roots)@.admits(self@)
                    &&& transaction.wf()
                    &&& transaction@ == old(roots)@.transaction_over(seq![self@])
                    &&& final(roots)@ == old(roots)@.begun(seq![self@])
                },
                Err(error) => begin_refused(old(roots)@, self@, error, final(roots)@),
            },
    {
        let mut trees: Vec<TreeRoot> = Vec::new();
        trees.push(self.root());
        proof {
            let before = old(roots)@;
            let all = roots::all_roots(trees@);
            assert(all =~= seq![self@]);
            assert(all[0] == self@);
            assert(before.blocked(all) == before.holds_lock(self@.name));
            let asked = before.numbered().with_kind(self@);
            assert(before.numbered().with_kinds(all, 0) == before.numbered());
            assert(before.numbered().with_kinds(all, 1) == asked);
            assert(asked.with_files(all, 0) == asked);
        }
        roots.transaction(trees.as_slice())
    }

    /// Opens the file of the tree to read it.
    fn open_for_read(&self, roots: &Roots) -> (result: Result<TreeReader, Error>)
        requires
            roots.wf(),
        ensures
            match result {
                Ok(reader) => {
                    &&& roots@.read(self@) is Seen
                    &&& reader.tree() == self@.name
                    &&& reader.file() == roots@.trees[self@.name].file_id
                },
                Err(error) => match roots@.read(self@) {
                    Reading::Missing => error.kind is FileNotFound,
                    Reading::Refused(why) => roots::is_refusal(error, why),
                    Reading::Seen(_) => false,
                },
            },
    {
        roots.open_for_read(&self.root())
    }

    /// What a reader finds of the tree, or nothing where it has no file.
    fn seen<'a>(&self, roots: &'a Roots) -> (result: Result<Option<&'a TreeState>, Error>)
        requires
            roots.wf(),
        ensures
            match roots@.read(self@) {
                Reading::Missing => result matches Ok(None),
                Reading::Refused(why) => refused(result, why),
                Reading::Seen(tree) => result matches Ok(Some(state)) && state.wf() && state@
                    == tree,
            },
    {
        let attempt = |_attempt: u64| -> (answer: Result<Option<&'a TreeState>, Error>)
            ensures
                !retry::compacted(answer),
                match roots@.read(self@) {
                    Reading::Missing => answer matches Ok(None),
                    Reading::Refused(why) => refused(answer, why),
                    Reading::Seen(tree) => answer matches Ok(Some(state)) && state.wf() && state@
                        == tree,
                },
            {
                let reader = match self.open_for_read(roots) {
                    Ok(reader) => reader,
                    Err(error) => {
                        if error.kind.is_file_not_found() {
                            return Ok(None);
                        }
                        return Err(error);
                    },
                };
                match roots.read(&reader) {
                    Ok(state) => Ok(Some(state)),
                    Err(error) => Err(error),
                }
            };
        assert(retry::settles(attempt, 0));
        catch_compaction_and_retry(attempt)
    }

    /// What a reader finds of the changes of the tree.
    fn seen_changes<'a>(&self, roots: &'a Roots) -> (result: Result<&'a TreeState, Error>)
        requires
            roots.wf(),
        ensures
            match roots@.read(self@) {
                Reading::Missing => missing(result),
                Reading::Refused(why) => refused(result, why),
                Reading::Seen(tree) => result matches Ok(state) && state.wf() && state@ == tree,
            },
    {
        let attempt = |_attempt: u64| -> (answer: Result<&'a TreeState, Error>)
            ensures
                !retry::compacted(answer),
                match roots@.read(self@) {
                    Reading::Missing => missing(answer),
                    Reading::Refused(why) => refused(answer, why),
                    Reading::Seen(tree) => answer matches Ok(state) && state.wf() && state@
                        == tree,
                },
            {
                match self.open_for_read(roots) {
                    Ok(reader) => roots.read(&reader),
                    Err(error) => Err(error),
                }
            };
        assert(retry::settles(attempt, 0));
        catch_compaction_and_retry(attempt)
    }

    /// As [`Tree::seen`], for a read that the caller's own code may abort.
    fn seen_abortable<'a, E>(&self, roots: &'a Roots) -> (result: Result<
        Option<&'a TreeState>,
        AbortError<E>,
    >)
        requires
            roots.wf(),
        ensures
            match roots@.read(self@) {
                Reading::Missing => result matches Ok(None),
                Reading::Refused(why) => refused_abortable(result, why),
                Reading::Seen(tree) => result matches Ok(Some(state)) && state.wf() && state@
                    == tree,
            },
    {
        let attempt = |_attempt: u64| -> (answer: Result<Option<&'a TreeState>, AbortError<E>>)
            ensures
                !retry::compacted_abortable(answer),
                match roots@.read(self@) {
                    Reading::Missing => answer matches Ok(None),
                    Reading::Refused(why) => refused_abortable(answer, why),
                    Reading::Seen(tree) => answer matches Ok(Some(state)) && state.wf() && state@
                        == tree,
                },
            {
                let reader = match self.open_for_read(roots) {
                    Ok(reader) => reader,
                    Err(error) => {
                        if error.kind.is_file_not_found() {
                            return Ok(None);
                        }
                        return Err(AbortError::from(error));
                    },
                };
                match roots.read(&reader) {
                    Ok(state) => Ok(Some(state)),
                    Err(error) => Err(AbortError::from(error)),
                }
            };
        assert(retry::settles_abortable(attempt, 0));
        catch_compaction_and_retry_abortable(attempt)
    }

    /// As [`Tree::seen_changes`], for a read that the caller's own code may abort.
    fn seen_changes_abortable<'a, E>(&self, roots: &'a Roots) -> (result: Result<
        &'a TreeState,
        AbortError<E>,
    >)
        requires
            roots.wf(),
        ensures
            match roots@.read(self@) {
                Reading::Missing => missing_abortable(result),
                Reading::Refused(why) => refused_abortable(result, why),
                Reading::Seen(tree) => result matches Ok(state) && state.wf() && state@ == tree,
            },
    {
        let attempt = |_attempt: u64| -> (answer: Result<&'a TreeState, AbortError<E>>)
            ensures
                !retry::compacted_abortable(answer),
                match roots@.read(self@) {
                    Reading::Missing => missing_abortable(answer),
                    Reading::Refused(why) => refused_abortable(answer, why),
                    Reading::Seen(tree) => answer matches Ok(state) && state.wf() && state@
                        == tree,
                },
            {
                match self.open_for_read(roots) {
                    Ok(reader) => match roots.read(&reader) {
                        Ok(state) => Ok(state),
                        Err(error) => Err(AbortError::from(error)),
                    },
                    Err(error) => Err(AbortError::from(error)),
                }
            };
        assert(retry::settles_abortable(attempt, 0));
        catch_compaction_and_retry_abortable(attempt)
    }

    /// Sets `key` to `value`. This is executed within its own transaction.
    pub fn set<M: FileManager>(
        &self,
        roots: &mut Roots,
        key: Vec<u8>,
        value: Vec<u8>,
        files: &mut M,
    ) -> (result: Result<(), Error>)
        requires
            self.wf(),
            old(roots).wf(),
            old(roots)@.agrees(self@),
        ensures
            final(roots).wf(),
            change_result(
                old(roots)@,
                *old(files),
                self@,
                old(roots)@.current(self@).set(key@, value@),
                failure_of(result),
                final(roots)@,
                *final(files),
            ),
    {
        match self.replace(roots, key, value, files) {
            Ok(_) => Ok(()),
            Err(error) => Err(error),
        }
    }

    /// Sets `key` to `value`. Returns a tuple containing two elements:
    ///
    /// - The previously stored value, if a value was already present.
    /// - The new/updated index for this key.
    pub fn replace<M: FileManager>(
        &self,
        roots: &mut Roots,
        key: Vec<u8>,
        value: Vec<u8>,
        files: &mut M,
    ) -> (result: Result<(Option<Vec<u8>>, KeyIndex), Error>)
        requires
            self.wf(),
            old(roots).wf(),
            old(roots)@.agrees(self@),
        ensures
            final(roots).wf(),
            change_result(
                old(roots)@,
                *old(files),
                self@,
                old(roots)@.current(self@).set(key@, value@),
                failure_of(result),
                final(roots)@,
                *final(files),
            ),
            result matches Ok((existing, index)) ==> {
                &&& bytes::optional(existing) == old(roots)@.current(self@).value_of(key@)
                &&& index == old(roots)@.current(self@).next_index(value@)
            },
    {
        let ghost before = roots@;
        let ghost tree = old(roots)@.current(self@).set(key@, value@);
        proof {
            roots.lemma_wf();
        }
        let mut transaction = match self.begin_transaction(roots) {
            Ok(transaction) => transaction,
            Err(error) => {
                return Err(error);
            },
        };
        proof {
            lemma_applied(before, self@, tree);
        }
        let results = match transaction.first_tree().replace(key, value) {
            Ok(results) => results,
            Err(error) => {
                transaction.rollback(roots);
                return Err(error);
            },
        };
        let mut thread_count: u16 = 0;
        match transaction.commit(roots, &mut thread_count, files) {
            Ok(done) => {
                assert(done == ());
                Ok(results)
            },
            Err(error) => Err(error),
        }
    }

    /// Executes a modification. Returns a list of all changed keys.
    pub fn modify<M: FileManager>(
        &self,
        roots: &mut Roots,
        keys: Vec<Vec<u8>>,
        operation: Operation,
        files: &mut M,
    ) -> (result: Result<Vec<ModificationResult>, Error>)
        requires
            self.wf(),
            old(roots).wf(),
            old(roots)@.agrees(self@),
            operation.fits(keys@.len()),
        ensures
            final(roots).wf(),
            change_result(
                old(roots)@,
                *old(files),
                self@,
                old(roots)@.current(self@).modified(
                    bytes::all_owned(keys@),
                    operation,
                    keys@.len(),
                ),
                failure_of(result),
                final(roots)@,
                *final(files),
            ),
            result matches Ok(results) ==> model::changed(results@) == old(roots)@.current(
                self@,
            ).modifications(bytes::all_owned(keys@), operation, keys@.len()),
    {
        let ghost before = roots@;
        let ghost tree = old(roots)@.current(self@).modified(
            bytes::all_owned(keys@),
            operation,
            keys@.len(),
        );
        proof {
            roots.lemma_wf();
        }
        let mut transaction = match self.begin_transaction(roots) {
            Ok(transaction) => transaction,
            Err(error) => {
                return Err(error);
            },
        };
        proof {
            lemma_applied(before, self@, tree);
        }
        let results = match transaction.first_tree().modify(keys, operation) {
            Ok(results) => results,
            Err(error) => {
                transaction.rollback(roots);
                return Err(error);
            },
        };
        let mut thread_count: u16 = 0;
        match transaction.commit(roots, &mut thread_count, files) {
            Ok(done) => {
                assert(done == ());
                Ok(results)
            },
            Err(error) => Err(error),
        }
    }

    /// Removes `key` and returns the existing value and index, if present. This is
    /// executed within its own transaction.
    pub fn remove<M: FileManager>(&self, roots: &mut Roots, key: &[u8], files: &mut M) -> (result:
        Result<Option<(Vec<u8>, KeyIndex)>, Error>)
        requires
            self.wf(),
            old(roots).wf(),
            old(roots)@.agrees(self@),
        ensures
            final(roots).wf(),
            change_result(
                old(roots)@,
                *old(files),
                self@,
                old(roots)@.current(self@).remove(key@),
                failure_of(result),
                final(roots)@,
                *final(files),
            ),
            result matches Ok(removed) ==> model::entry_of(removed) == old(roots)@.current(
                self@,
            ).lookup(key@),
    {
        let ghost before = roots@;
        let ghost tree = old(roots)@.current(self@).remove(key@);
        proof {
            roots.lemma_wf();
        }
        let mut transaction = match self.begin_transaction(roots) {
            Ok(transaction) => transaction,
            Err(error) => {
                return Err(error);
            },
        };
        proof {
            lemma_applied(before, self@, tree);
        }
        let results = match transaction.first_tree().remove(key) {
            Ok(results) => results,
            Err(error) => {
                transaction.rollback(roots);
                return Err(error);
            },
        };
        let mut thread_count: u16 = 0;
        match transaction.commit(roots, &mut thread_count, files) {
            Ok(done) => {
                assert(done == ());
                Ok(results)
            },
            Err(error) => Err(error),
        }
    }

    /// Compares the value of `key` against `expected`. If the values match, key will
    /// be set to the new value if `new` is `Some` or removed if `new` is `None`. This
    /// is executed within its own transaction.
    pub fn compare_and_swap<M: FileManager>(
        &self,
        roots: &mut Roots,
        key: &[u8],
        expected: Option<&[u8]>,
        new: Option<Vec<u8>>,
        files: &mut M,
    ) -> (result: Result<(), CompareAndSwapError>)
        requires
            self.wf(),
            old(roots).wf(),
            old(roots)@.agrees(self@),
        ensures
            final(roots).wf(),
            ({
                let before = old(roots)@;
                let current = before.current(self@);
                let matched = current.value_of(key@) == model::expected_bytes(expected);
                let tree = current.put(key@, bytes::optional(new));
                match result {
                    Ok(()) => {
                        &&& before.admits(self@) && matched
                        &&& change_result(
                            before,
                            *old(files),
                            self@,
                            tree,
                            None,
                            final(roots)@,
                            *final(files),
                        )
                    },
                    Err(CompareAndSwapError::Conflict(existing)) => {
                        &&& before.admits(self@) && !matched
                        &&& bytes::optional(existing) == current.value_of(key@)
                        &&& final(roots)@ == before.abandoned(self@)
                        &&& *final(files) == *old(files)
                    },
                    Err(CompareAndSwapError::Error(error)) => {
                        &&& before.admits(self@) ==> matched
                        &&& change_result(
                            before,
                            *old(files),
                            self@,
                            tree,
                            Some(error),
                            final(roots)@,
                            *final(files),
                        )
                    },
                }
            }),
    {
        let ghost before = roots@;
        let ghost tree = before.current(self@).put(key@, bytes::optional(new));
        proof {
            roots.lemma_wf();
        }
        let mut transaction = match self.begin_transaction(roots) {
            Ok(transaction) => transaction,
            Err(error) => {
                return Err(CompareAndSwapError::from(error));
            },
        };
        let ghost begun = transaction@;
        match transaction.first_tree().compare_and_swap(key, expected, new) {
            Ok(()) => {
                proof {
                    lemma_applied(before, self@, tree);
                }
            },
            Err(error) => {
                proof {
                    lemma_applied(before, self@, before.current(self@));
                    lemma_rollback_alike(roots@, begun);
                    assert(transaction@.trees =~= begun.trees);
                }
                transaction.rollback(roots);
                return Err(error);
            },
        }
        let mut thread_count: u16 = 0;
        match transaction.commit(roots, &mut thread_count, files) {
            Ok(done) => {
                assert(done == ());
                Ok(())
            },
            Err(error) => Err(CompareAndSwapError::from(error)),
        }
    }

    /// Retrieves the current value of `key`, if present.
    /// Does not reflect any changes in pending transactions.
    pub fn get(&self, roots: &Roots, key: &[u8]) -> (result: Result<
        Option<Vec<u8>>,
        Error,
    >)
        requires
            roots.wf(),
        ensures
            match roots@.read(self@) {
                Reading::Missing => result matches Ok(None),
                Reading::Refused(why) => refused(result, why),
                Reading::Seen(tree) => result matches Ok(value) && bytes::optional(value)
                    == tree.value_of(key@),
            },
    {
        match self.seen(roots) {
            Ok(Some(state)) => Ok(state.get(key)),
            Ok(None) => Ok(None),
            Err(error) => Err(error),
        }
    }

    /// Retrieves the current index of `key`, if present.
    /// Does not reflect any changes in pending transactions.
    pub fn get_index(&self, roots: &Roots, key: &[u8]) -> (result: Result<
        Option<KeyIndex>,
        Error,
    >)
        requires
            roots.wf(),
        ensures
            match roots@.read(self@) {
                Reading::Missing => result matches Ok(None),
                Reading::Refused(why) => refused(result, why),
                Reading::Seen(tree) => result matches Ok(index) && index == tree.index_of(key@),
            },
    {
        match self.seen(roots) {
            Ok(Some(state)) => Ok(state.get_index(key)),
            Ok(None) => Ok(None),
            Err(error) => Err(error),
        }
    }

    /// Retrieves the current value and index of `key`, if present.
    /// Does not reflect any changes in pending transactions.
    pub fn get_with_index(&self, roots: &Roots, key: &[u8]) -> (result: Result<
        Option<(Vec<u8>, KeyIndex)>,
        Error,
    >)
        requires
            roots.wf(),
        ensures
            match roots@.read(self@) {
                Reading::Missing => result matches Ok(None),
                Reading::Refused(why) => refused(result, why),
                Reading::Seen(tree) => result matches Ok(read) && model::entry_of(read)
                    == tree.lookup(key@),
            },
    {
        match self.seen(roots) {
            Ok(Some(state)) => Ok(state.get_with_index(key)),
            Ok(None) => Ok(None),
            Err(error) => Err(error),
        }
    }

    /// Retrieves the values of `keys`. If any keys are not found, they will be
    /// omitted from the results.
    pub fn get_multiple(&self, roots: &Roots, keys: &[&[u8]]) -> (result: Result<
        Vec<(Vec<u8>, Vec<u8>)>,
        Error,
    >)
        requires
            roots.wf(),
        ensures
            match roots@.read(self@) {
                Reading::Missing => result matches Ok(read) && read@.len() == 0,
                Reading::Refused(why) => refused(result, why),
                Reading::Seen(tree) => result matches Ok(read) && model::pairs(read@)
                    == tree.values_at(tree.found(bytes::all_of(keys@))),
            },
    {
        match self.seen(roots) {
            Ok(Some(state)) => Ok(state.get_multiple(keys)),
            Ok(None) => Ok(Vec::new()),
            Err(error) => Err(error),
        }
    }

    /// Retrieves the indexes of `keys`. If any keys are not found, they will be
    /// omitted from the results.
    pub fn get_multiple_indexes(&self, roots: &Roots, keys: &[&[u8]]) -> (result: Result<
        Vec<(Vec<u8>, KeyIndex)>,
        Error,
    >)
        requires
            roots.wf(),
        ensures
            match roots@.read(self@) {
                Reading::Missing => result matches Ok(read) && read@.len() == 0,
                Reading::Refused(why) => refused(result, why),
                Reading::Seen(tree) => result matches Ok(read) && model::indexed(read@)
                    == tree.indexes_at(tree.found(bytes::all_of(keys@))),
            },
    {
        match self.seen(roots) {
            Ok(Some(state)) => Ok(state.get_multiple_indexes(keys)),
            Ok(None) => Ok(Vec::new()),
            Err(error) => Err(error),
        }
    }

    /// Retrieves the values and indexes of `keys`. If any keys are not found, they will be
    /// omitted from the results.
    pub fn get_multiple_with_indexes(&self, roots: &Roots, keys: &[&[u8]]) -> (result: Result<
        Vec<(Vec<u8>, Vec<u8>, KeyIndex)>,
        Error,
    >)
        requires
            roots.wf(),
        ensures
            match roots@.read(self@) {
                Reading::Missing => result matches Ok(read) && read@.len() == 0,
                Reading::Refused(why) => refused(result, why),
                Reading::Seen(tree) => result matches Ok(read) && model::triples(read@)
                    == tree.entries_at(tree.found(bytes::all_of(keys@))),
            },
    {
        match self.seen(roots) {
            Ok(Some(state)) => Ok(state.get_multiple_with_indexes(keys)),
            Ok(None) => Ok(Vec::new()),
            Err(error) => Err(error),
        }
    }

    /// Retrieves all of the values of keys within `range`.
    pub fn get_range(&self, roots: &Roots, range: &KeyRange) -> (result: Result<
        Vec<(Vec<u8>, Vec<u8>)>,
        Error,
    >)
        requires
            roots.wf(),
        ensures
            match roots@.read(self@) {
                Reading::Missing => result matches Ok(read) && read@.len() == 0,
                Reading::Refused(why) => refused(result, why),
                Reading::Seen(tree) => result matches Ok(read) && model::pairs(read@)
                    == tree.values_at(tree.keys_in(*range)),
            },
    {
        match self.seen(roots) {
            Ok(Some(state)) => Ok(state.get_range(range)),
            Ok(None) => Ok(Vec::new()),
            Err(error) => Err(error),
        }
    }

    /// Retrieves all of the indexes of keys within `range`.
    pub fn get_range_indexes(&self, roots: &Roots, range: &KeyRange) -> (result: Result<
        Vec<(Vec<u8>, KeyIndex)>,
        Error,
    >)
        requires
            roots.wf(),
        ensures
            match roots@.read(self@) {
                Reading::Missing => result matches Ok(read) && read@.len() == 0,
                Reading::Refused(why) => refused(result, why),
                Reading::Seen(tree) => result matches Ok(read) && model::indexed(read@)
                    == tree.indexes_at(tree.keys_in(*range)),
            },
    {
        match self.seen(roots) {
            Ok(Some(state)) => Ok(state.get_range_indexes(range)),
            Ok(None) => Ok(Vec::new()),
            Err(error) => Err(error),
        }
    }

    /// Retrieves all of the values and indexes of keys within `range`.
    pub fn get_range_with_indexes(&self, roots: &Roots, range: &KeyRange) -> (result: Result<
        Vec<(Vec<u8>, Vec<u8>, KeyIndex)>,
        Error,
    >)
        requires
            roots.wf(),
        ensures
            match roots@.read(self@) {
                Reading::Missing => result matches Ok(read) && read@.len() == 0,
                Reading::Refused(why) => refused(result, why),
                Reading::Seen(tree) => result matches Ok(read) && model::triples(read@)
                    == tree.entries_at(tree.keys_in(*range)),
            },
    {
        match self.seen(roots) {
            Ok(Some(state)) => Ok(state.get_range_with_indexes(range)),
            Ok(None) => Ok(Vec::new()),
            Err(error) => Err(error),
        }
    }

    /// Scans the tree across all nodes that contain keys within `range`, as
    /// [`TransactionTree::scan`](crate::transaction_tree::TransactionTree::scan)
    /// does. Where the tree has no file nothing is scanned.
    pub fn scan<
        A,
        CallerError,
        NodeEvaluator: Fn(&Vec<u8>, &ReducedIndex, usize) -> ScanEvaluation,
        KeyEvaluator: Fn(&Vec<u8>, &KeyIndex) -> ScanEvaluation,
        DataCallback: Fn(A, &Vec<u8>, &KeyIndex, &Vec<u8>) -> Result<A, AbortError<CallerError>>,
    >(
        &self,
        roots: &Roots,
        range: &KeyRange,
        forwards: bool,
        node_evaluator: NodeEvaluator,
        key_evaluator: KeyEvaluator,
        callback: DataCallback,
        start: A,
    ) -> (outcome: Result<A, AbortError<CallerError>>)
        requires
            roots.wf(),
            scan::evaluates_nodes(node_evaluator),
            scan::evaluates_keys(key_evaluator),
            scan::takes_data(callback),
        ensures
            match roots@.read(self@) {
                Reading::Missing => outcome == Ok::<A, AbortError<CallerError>>(start),
                Reading::Refused(why) => refused_abortable(outcome, why),
                Reading::Seen(tree) => scan::nodes_scanned(
                    tree,
                    scan::ordered(tree.nodes_in(*range), forwards),
                    *range,
                    forwards,
                    node_evaluator,
                    key_evaluator,
                    callback,
                    start,
                    outcome,
                ),
            },
    {
        match self.seen_abortable(roots) {
            Ok(Some(state)) => state.scan(
                range,
                forwards,
                node_evaluator,
                key_evaluator,
                callback,
                start,
            ),
            Ok(None) => Ok(start),
            Err(error) => Err(error),
        }
    }

    /// Returns the reduced index over the provided range. This is an aggregation that
    /// reduces the indexes of each node and then the results, producing a single
    /// value.
    ///
    /// If no keys match, the returned result is what
    /// [`rereduce()`](crate::reduce::rereduce) returns when an empty slice is
    /// provided.
    pub fn reduce(&self, roots: &Roots, range: &KeyRange) -> (result: Result<
        Option<ReducedIndex>,
        Error,
    >)
        requires
            roots.wf(),
        ensures
            match roots@.read(self@) {
                Reading::Missing => result matches Ok(Some(reduced)) && reduced
                    == ReducedIndex::of_parts(Seq::empty()),
                Reading::Refused(why) => refused(result, why),
                Reading::Seen(tree) => result matches Ok(Some(reduced)) && reduced
                    == ReducedIndex::of(tree.key_indexes(tree.keys_in(*range))),
            },
    {
        match self.seen(roots) {
            Ok(Some(state)) => Ok(Some(state.reduce(range))),
            Ok(None) => Ok(Some(rereduce(&[]))),
            Err(error) => Err(error),
        }
    }

    /// Returns the first key of the tree.
    pub fn first_key(&self, roots: &Roots) -> (result: Result<
        Option<Vec<u8>>,
        Error,
    >)
        requires
            roots.wf(),
        ensures
            match roots@.read(self@) {
                Reading::Missing => result matches Ok(None),
                Reading::Refused(why) => refused(result, why),
                Reading::Seen(tree) => result matches Ok(key) && bytes::optional(key)
                    == tree.first_of(),
            },
    {
        match self.seen(roots) {
            Ok(Some(state)) => match state.first() {
                Some((key, _)) => Ok(Some(key)),
                None => Ok(None),
            },
            Ok(None) => Ok(None),
            Err(error) => Err(error),
        }
    }

    /// Returns the first key and value of the tree.
    pub fn first(&self, roots: &Roots) -> (result: Result<
        Option<(Vec<u8>, Vec<u8>)>,
        Error,
    >)
        requires
            roots.wf(),
        ensures
            match roots@.read(self@) {
                Reading::Missing => result matches Ok(None),
                Reading::Refused(why) => refused(result, why),
                Reading::Seen(tree) => result matches Ok(read) && model::pair_of(read)
                    == tree.with_value(tree.first_of()),
            },
    {
        match self.seen(roots) {
            Ok(Some(state)) => Ok(state.first()),
            Ok(None) => Ok(None),
            Err(error) => Err(error),
        }
    }

    /// Returns the last key of the tree.
    pub fn last_key(&self, roots: &Roots) -> (result: Result<
        Option<Vec<u8>>,
        Error,
    >)
        requires
            roots.wf(),
        ensures
            match roots@.read(self@) {
                Reading::Missing => result matches Ok(None),
                Reading::Refused(why) => refused(result, why),
                Reading::Seen(tree) => result matches Ok(key) && bytes::optional(key)
                    == tree.last_of(),
            },
    {
        match self.seen(roots) {
            Ok(Some(state)) => match state.last() {
                Some((key, _)) => Ok(Some(key)),
                None => Ok(None),
            },
            Ok(None) => Ok(None),
            Err(error) => Err(error),
        }
    }

    /// Returns the last key and value of the tree.
    pub fn last(&self, roots: &Roots) -> (result: Result<
        Option<(Vec<u8>, Vec<u8>)>,
        Error,
    >)
        requires
            roots.wf(),
        ensures
            match roots@.read(self@) {
                Reading::Missing => result matches Ok(None),
                Reading::Refused(why) => refused(result, why),
                Reading::Seen(tree) => result matches Ok(read) && model::pair_of(read)
                    == tree.with_value(tree.last_of()),
            },
    {
        match self.seen(roots) {
            Ok(Some(state)) => Ok(state.last()),
            Ok(None) => Ok(None),
            Err(error) => Err(error),
        }
    }

    /// Rewrites the database to remove data that is no longer current. What the tree
    /// holds stays as it is, in a new file.
    pub fn compact(&self, roots: &mut Roots) -> (result: Result<(), Error>)
        requires
            old(roots).wf(),
        ensures
            final(roots).wf(),
            match old(roots)@.read(self@) {
                Reading::Missing => result is Ok && final(roots)@ == old(roots)@,
                Reading::Refused(why) => refused(result, why) && final(roots)@ == old(roots)@,
                Reading::Seen(_) => match result {
                    Ok(()) => {
                        &&& !old(roots)@.holds_lock(self@.name)
                        &&& final(roots)@ == old(roots)@.compacted(self@.name)
                    },
                    Err(error) => {
                        &&& old(roots)@.holds_lock(self@.name)
                        &&& error.kind is TreeLocked
                        &&& final(roots)@ == old(roots)@
                    },
                },
            },
    {
        match self.open_for_read(roots) {
            Ok(_) => {},
            Err(error) => {
                if error.kind.is_file_not_found() {
                    return Ok(());
                }
                return Err(error);
            },
        }
        roots.compact_tree(self.name.as_str())
    }

    /// Returns the latest sequence id. `executing` is the transaction that holds the
    /// tree, if one does: its changes count.
    #[must_use]
    pub fn current_sequence_id(
        &self,
        roots: &Roots,
        executing: Option<&ExecutingTransaction>,
    ) -> (id: SequenceId)
        requires
            roots.wf(),
            executing matches Some(transaction) ==> transaction.wf(),
        ensures
            id == match roots@.latest(self@.name, transaction::model_of(executing)) {
                Some(tree) => tree.changes.len(),
                None => 0,
            },
    {
        match roots.latest(self.name.as_str(), executing) {
            Some(state) => state.current_sequence_id(),
            None => 0,
        }
    }

    /// Scans the tree for changes whose number is contained within `range`, as
    /// [`TransactionTree::scan_sequences`](crate::transaction_tree::TransactionTree::scan_sequences)
    /// does.
    pub fn scan_sequences<
        A,
        CallerError,
        KeyEvaluator: Fn(&KeySequence) -> ScanEvaluation,
        DataCallback: Fn(A, &KeySequence, &Vec<u8>) -> Result<A, AbortError<CallerError>>,
    >(
        &self,
        roots: &Roots,
        range: &SequenceRange,
        forwards: bool,
        key_evaluator: KeyEvaluator,
        data_callback: DataCallback,
        start: A,
    ) -> (outcome: Result<A, AbortError<CallerError>>)
        requires
            roots.wf(),
            sequences::evaluates_changes(key_evaluator),
            sequences::takes_changes(data_callback),
        ensures
            match roots@.read(self@) {
                Reading::Missing => missing_abortable(outcome),
                Reading::Refused(why) => refused_abortable(outcome, why),
                Reading::Seen(tree) => sequences::changes_scanned(
                    tree,
                    scan::ordered(tree.changes_in(*range), forwards),
                    key_evaluator,
                    data_callback,
                    start,
                    outcome,
                ),
            },
    {
        match self.seen_changes_abortable(roots) {
            Ok(state) => state.scan_sequences(
                range,
                forwards,
                key_evaluator,
                data_callback,
                start,
            ),
            Err(error) => Err(error),
        }
    }

    /// Retrieves the keys and values associated with one or more `sequences`. The
    /// value retrieved is the value of the key at the given [`SequenceId`]. If a
    /// sequence is not found, it will not appear in the result map. If the value was
    /// removed, None is returned for the value.
    pub fn get_multiple_by_sequence(
        &self,
        roots: &Roots,
        sequences: &[SequenceId],
    ) -> (result: Result<HashMap<SequenceId, (Vec<u8>, Option<Vec<u8>>)>, Error>)
        requires
            roots.wf(),
        ensures
            match roots@.read(self@) {
                Reading::Missing => missing(result),
                Reading::Refused(why) => refused(result, why),
                Reading::Seen(tree) => result matches Ok(read) && sequences::holds_values(
                    read@,
                    tree,
                    sequences@,
                ),
            },
    {
        match self.seen_changes(roots) {
            Ok(state) => Ok(state.get_multiple_by_sequence(sequences)),
            Err(error) => Err(error),
        }
    }

    /// Retrieves the keys and indexes associated with one or more `sequences`. If a
    /// sequence is not found, it will not appear in the result list.
    pub fn get_multiple_indexes_by_sequence(
        &self,
        roots: &Roots,
        sequences: &[SequenceId],
    ) -> (result: Result<Vec<SequenceIndex>, Error>)
        requires
            roots.wf(),
        ensures
            match roots@.read(self@) {
                Reading::Missing => missing(result),
                Reading::Refused(why) => refused(result, why),
                Reading::Seen(tree) => result matches Ok(read) && sequences::lists_indexes(
                    read@,
                    tree,
                    sequences@,
                ),
            },
    {
        match self.seen_changes(roots) {
            Ok(state) => Ok(state.get_multiple_indexes_by_sequence(sequences)),
            Err(error) => Err(error),
        }
    }

    /// Retrieves the keys, values, and indexes associated with one or more
    /// `sequences`. The value retrieved is the value of the key at the given
    /// [`SequenceId`]. If a sequence is not found, it will not appear in the result
    /// map.
    pub fn get_multiple_with_indexes_by_sequence(
        &self,
        roots: &Roots,
        sequences: &[SequenceId],
    ) -> (result: Result<HashMap<SequenceId, SequenceEntry>, Error>)
        requires
            roots.wf(),
        ensures
            match roots@.read(self@) {
                Reading::Missing => missing(result),
                Reading::Refused(why) => refused(result, why),
                Reading::Seen(tree) => result matches Ok(read) && sequences::holds_entries(
                    read@,
                    tree,
                    sequences@,
                ),
            },
    {
        match self.seen_changes(roots) {
            Ok(state) => Ok(state.get_multiple_with_indexes_by_sequence(sequences)),
            Err(error) => Err(error),
        }
    }
}

} // verus!
