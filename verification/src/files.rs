//! How trees and the log are written to files.

use vstd::prelude::*;
use crate::error::Error;
use crate::transaction::{LogEntry, LogEntryModel};
use crate::transaction_tree::{TransactionTree, TransactionTreeModel};

verus! {

/// Writes the files of a database.
pub trait FileManager: Sized {
    /// Writing `tree` has taken the files from `before` to `after`, with `result`. Unless
    /// an implementation says what that means for its files, it may mean anything.
    open spec fn wrote(
        before: Self,
        tree: TransactionTreeModel,
        result: Result<(), Error>,
        after: Self,
    ) -> bool {
        true
    }

    /// Pushing `entry` to the log has taken the files from `before` to `after`, with
    /// `result`. Unless an implementation says what that means for its files, it may mean
    /// anything.
    open spec fn pushed(
        before: Self,
        entry: LogEntryModel,
        result: Result<(), Error>,
        after: Self,
    ) -> bool {
        true
    }

    /// Writes a tree with the changes of its transaction.
    fn write_tree(&mut self, tree: &TransactionTree) -> (result: Result<(), Error>)
        requires
            tree.wf(),
        ensures
            Self::wrote(*old(self), tree@, result, *final(self)),
    ;

    /// Pushes an entry to the log.
    fn push_entry(&mut self, entry: &LogEntry) -> (result: Result<(), Error>)
        ensures
            Self::pushed(*old(self), entry@, result, *final(self)),
    ;
}

/// Leaves everything to the database, which keeps its trees and its log in memory.
#[derive(Clone, Copy, Debug)]
pub struct MemoryFileManager;

impl FileManager for MemoryFileManager {
    open spec fn wrote(
        before: Self,
        tree: TransactionTreeModel,
        result: Result<(), Error>,
        after: Self,
    ) -> bool {
        result is Ok
    }

    open spec fn pushed(
        before: Self,
        entry: LogEntryModel,
        result: Result<(), Error>,
        after: Self,
    ) -> bool {
        result is Ok
    }

    fn write_tree(&mut self, _tree: &TransactionTree) -> (result: Result<(), Error>) {
        Ok(())
    }

    fn push_entry(&mut self, _entry: &LogEntry) -> (result: Result<(), Error>) {
        Ok(())
    }
}

/// No attempt has failed.
pub open spec fn all_ok(results: Seq<Result<(), Error>>) -> bool {
    forall|i: int| 0 <= i < results.len() ==> (#[trigger] results[i]) is Ok
}

/// `failure` is the first error among `results`, if there is one.
pub open spec fn first_failure(results: Seq<Result<(), Error>>, failure: Option<Error>) -> bool {
    match failure {
        None => all_ok(results),
        Some(error) => exists|i: int|
            {
                &&& 0 <= i < results.len()
                &&& #[trigger] results[i] == Err::<(), Error>(error)
                &&& all_ok(results.take(i))
            },
    }
}

/// Writing each of `trees` once, one behind the other, has taken the files from `before`
/// to `after`, with `results`.
pub open spec fn all_wrote<M: FileManager>(
    before: M,
    trees: Seq<TransactionTreeModel>,
    results: Seq<Result<(), Error>>,
    after: M,
) -> bool
    decreases trees.len(),
{
    if trees.len() == 0 {
        results.len() == 0 && after == before
    } else {
        &&& results.len() > 0
        &&& exists|files: M|
            {
                &&& all_wrote(before, trees.drop_last(), results.drop_last(), files)
                &&& #[trigger] M::wrote(files, trees.last(), results.last(), after)
            }
    }
}

/// There is one result for each tree.
pub proof fn lemma_all_wrote_len<M: FileManager>(
    before: M,
    trees: Seq<TransactionTreeModel>,
    results: Seq<Result<(), Error>>,
    after: M,
)
    requires
        all_wrote(before, trees, results, after),
    ensures
        results.len() == trees.len(),
    decreases trees.len(),
{
    if trees.len() > 0 {
        let files = choose|files: M|
            {
                &&& all_wrote(before, trees.drop_last(), results.drop_last(), files)
                &&& #[trigger] M::wrote(files, trees.last(), results.last(), after)
            };
        lemma_all_wrote_len(before, trees.drop_last(), results.drop_last(), files);
    }
}

/// Writing one more tree.
pub proof fn lemma_wrote_next<M: FileManager>(
    before: M,
    trees: Seq<TransactionTreeModel>,
    results: Seq<Result<(), Error>>,
    files: M,
    tree: TransactionTreeModel,
    result: Result<(), Error>,
    after: M,
)
    requires
        all_wrote(before, trees, results, files),
        M::wrote(files, tree, result, after),
    ensures
        all_wrote(before, trees.push(tree), results.push(result), after),
{
    let all = trees.push(tree);
    let answers = results.push(result);
    assert(all.drop_last() =~= trees);
    assert(answers.drop_last() =~= results);
    assert(all_wrote(before, all.drop_last(), answers.drop_last(), files));
    assert(M::wrote(files, all.last(), answers.last(), after));
}

/// What `trees` and then `entry` leave of the files: each tree is written once, one
/// behind the other. If all have been written, and only then, the entry is pushed to the
/// log, once.
pub open spec fn recorded<M: FileManager>(
    before: M,
    trees: Seq<TransactionTreeModel>,
    entry: LogEntryModel,
    result: Result<(), Error>,
    after: M,
) -> bool {
    exists|results: Seq<Result<(), Error>>, files: M|
        {
            &&& #[trigger] all_wrote(before, trees, results, files)
            &&& if all_ok(results) {
                M::pushed(files, entry, result, after)
            } else {
                &&& after == files
                &&& result matches Err(error) && first_failure(results, Some(error))
            }
        }
}

/// If no write can fail, none has failed.
proof fn lemma_reliable_writes<M: FileManager>(
    before: M,
    trees: Seq<TransactionTreeModel>,
    results: Seq<Result<(), Error>>,
    after: M,
)
    requires
        all_wrote(before, trees, results, after),
        forall|files: M, tree: TransactionTreeModel, answer: Result<(), Error>, next: M| #[trigger]
            M::wrote(files, tree, answer, next) ==> answer is Ok,
    ensures
        all_ok(results),
    decreases trees.len(),
{
    if trees.len() > 0 {
        let files = choose|files: M|
            {
                &&& all_wrote(before, trees.drop_last(), results.drop_last(), files)
                &&& #[trigger] M::wrote(files, trees.last(), results.last(), after)
            };
        lemma_reliable_writes(before, trees.drop_last(), results.drop_last(), files);
        assert forall|i: int| 0 <= i < results.len() implies (#[trigger] results[i]) is Ok by {
            if i < results.len() - 1 {
                assert(results.drop_last()[i] is Ok);
            }
        }
    }
}

/// With files that never fail, a transaction is always recorded.
pub proof fn law_reliable_files_record<M: FileManager>(
    before: M,
    trees: Seq<TransactionTreeModel>,
    entry: LogEntryModel,
    result: Result<(), Error>,
    after: M,
)
    requires
        recorded(before, trees, entry, result, after),
        forall|files: M, tree: TransactionTreeModel, answer: Result<(), Error>, next: M| #[trigger]
            M::wrote(files, tree, answer, next) ==> answer is Ok,
        forall|files: M, pushed: LogEntryModel, answer: Result<(), Error>, next: M| #[trigger]
            M::pushed(files, pushed, answer, next) ==> answer is Ok,
    ensures
        result is Ok,
{
    let (results, files) = choose|results: Seq<Result<(), Error>>, files: M|
        {
            &&& #[trigger] all_wrote(before, trees, results, files)
            &&& if all_ok(results) {
                M::pushed(files, entry, result, after)
            } else {
                &&& after == files
                &&& result matches Err(error) && first_failure(results, Some(error))
            }
        };
    lemma_reliable_writes(before, trees, results, files);
}

/// In memory, a transaction is always recorded.
pub proof fn law_memory_records(
    before: MemoryFileManager,
    trees: Seq<TransactionTreeModel>,
    entry: LogEntryModel,
    result: Result<(), Error>,
    after: MemoryFileManager,
)
    requires
        recorded(before, trees, entry, result, after),
    ensures
        result is Ok,
{
    law_reliable_files_record(before, trees, entry, result, after);
}

} // verus!
