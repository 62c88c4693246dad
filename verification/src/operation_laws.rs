//! What the operations of a database come to, tree by tree.

use vstd::prelude::*;
use crate::config::ConfigModel;
use crate::database;
use crate::database::{Ending, Reading, Refusal, RootsModel};
use crate::database_laws;
use crate::error::{AbortError, CompareAndSwapError, Error, ErrorKind};
use crate::files;
use crate::files::FileManager;
use crate::handle;
use crate::model::{Change, Stored, TreeModel};
use crate::names;
use crate::pool;
use crate::pool::PoolModel;
use crate::retry;
use crate::roots;
use crate::roots::Roots;
use crate::storage;
use crate::storage::{Context, LogRecord, LogRecordModel, StorageKind, StorageModel};
use crate::transaction;
use crate::transaction::{
    ExecutingTransaction, HoldModel, LogEntryModel, TransactionModel, UnlockedTransactionTree,
};
use crate::transaction_tree::{TransactionTree, TransactionTreeModel};
use crate::tree::{Root, RootModel, TreeRoot, Unversioned, Vault, Versioned};

verus! {

/// Nothing is in the tree, and nothing was ever changed in it.
pub open spec fn is_bare(tree: TreeModel, versioned: bool) -> bool {
    &&& tree.versioned == versioned
    &&& tree.contents == Map::<Seq<u8>, Stored>::empty()
    &&& tree.changes == Seq::<Change>::empty()
}

/// The vault that counts for a tree: its own, or else that of the database.
pub open spec fn vault_that_counts(context: Context, own: Option<Vault>) -> Option<Vault> {
    if own is Some {
        own
    } else {
        context.vault
    }
}

/// There is a tree for `root` that is kept as it is when it is opened: it was written, or
/// it was made as a tree of the same kind.
pub open spec fn stays(roots: RootsModel, root: RootModel) -> bool {
    &&& roots.trees.contains_key(root.name)
    &&& roots.trees[root.name].sealed is Some || roots.trees[root.name].versioned
        == root.versioned
}

// ---- Beginning a transaction ----

/// A transaction that begins over several trees opens each of them from its own state: it
/// starts from what the last transaction has left of it, or from an empty tree where there
/// was none, and readers see what they saw. Each tree is under its own name, its own vault
/// or that of the database, and the number of the transaction, and so is the entry for the
/// log. The transaction holds each of them.
pub proof fn law_every_tree_begins_from_its_own_state(
    before: Roots,
    roots: Seq<RootModel>,
    result: Result<ExecutingTransaction, Error>,
    after: Roots,
    i: int,
)
    requires
        before.wf(),
        roots::begin_result(before, roots, result, after),
        result is Ok,
        0 <= i < roots.len(),
    ensures
        ({
            let begun = result->Ok_0@;
            let tree = begun.trees[i];
            let name = roots[i].name;
            let slot = before@.trees[name];
            &&& begun.trees.len() == roots.len()
            &&& tree.name == name
            &&& tree.vault == vault_that_counts(before@.context, roots[i].vault)
            &&& tree.transaction_id == before@.next_transaction
            &&& !tree.written
            &&& stays(before@, roots[i]) ==> {
                &&& tree.pending == slot.pending
                &&& tree.published == slot.published
                &&& tree.file_id == slot.file_id
            }
            &&& !stays(before@, roots[i]) ==> {
                &&& is_bare(tree.pending, roots[i].versioned)
                &&& is_bare(tree.published, roots[i].versioned)
            }
            &&& tree.published.versioned == roots[i].versioned
            &&& begun.hold.id == before@.next_transaction
            &&& begun.hold.names.len() == roots.len()
            &&& begun.hold.names[i] == name
            &&& begun.entry.id == before@.next_transaction
            &&& begun.entry.trees.len() == roots.len()
            &&& begun.entry.trees[i] == name
            &&& begun.entry.data is None
            &&& after@.trees.contains_key(name)
            &&& after@.trees[name].file_id == tree.file_id
            &&& after@.trees[name].published == tree.published
            &&& after@.trees[name].pending == tree.pending
            &&& after@.trees[name].versioned == roots[i].versioned
            &&& after@.locks.contains_key(name)
            &&& after@.locks[name] == before@.next_transaction
            &&& after@.kinds.contains_key(name)
            &&& after@.kinds[name] == if before@.kinds.contains_key(name) {
                before@.kinds[name]
            } else {
                roots[i].versioned
            }
            &&& before@.next_transaction < u64::MAX ==> after@.next_transaction
                == before@.next_transaction + 1
        }),
{
    let start = before@;
    before.lemma_wf();
    database_laws::lemma_begun_at(start, roots, i);
    database_laws::lemma_begun(start, roots, roots[i].name);
    database_laws::law_begin_locks(start, roots, i);
    assert(start.refusal(roots[i]) is None);
    let made = start.prepared(roots, roots.len());
    start.numbered().lemma_with_kinds(roots, roots.len());
    start.numbered().with_kinds(roots, roots.len()).lemma_with_files(
        roots,
        roots.len(),
        roots[i].name,
    );
    assert(made.context == start.context);
    assert(RootsModel::named(roots, roots.len() as int, roots[i].name)) by {
        assert(roots[i].name == roots[i].name);
    }
    roots::lemma_apart(start, roots);
    lemma_kind_at(start.numbered(), roots, roots.len(), i);
}

/// The first that asks for a tree decides which kind it was asked for as.
proof fn lemma_kind_at(start: RootsModel, roots: Seq<RootModel>, n: nat, i: int)
    requires
        0 <= i < n <= roots.len(),
        forall|a: int, b: int|
            0 <= a < b < roots.len() ==> (#[trigger] roots[a]).name != (#[trigger] roots[b]).name,
    ensures
        ({
            let after = start.with_kinds(roots, n);
            let name = roots[i].name;
            &&& after.kinds.contains_key(name)
            &&& after.kinds[name] == if start.kinds.contains_key(name) {
                start.kinds[name]
            } else {
                roots[i].versioned
            }
        }),
    decreases n,
{
    if n == i + 1 {
        assert forall|a: int| 0 <= a < i implies (#[trigger] roots[a]).name != roots[i].name by {
            assert(roots[a].name != roots[i].name);
        }
        database_laws::lemma_kinds_untouched(start, roots, i as nat, roots[i].name);
    } else {
        lemma_kind_at(start, roots, (n - 1) as nat, i);
    }
}

/// What each tree of a transaction starts from is what a transaction over that tree alone
/// would start from. Where no failed commit has left anything, that is what readers see.
pub proof fn law_transactions_start_from_what_is_current(
    roots: RootsModel,
    trees: Seq<RootModel>,
    i: int,
)
    requires
        roots.consistent(),
        !roots.blocked(trees),
        0 <= i < trees.len(),
    ensures
        roots.transaction_over(trees).trees.len() == trees.len(),
        roots.transaction_over(trees).trees[i].pending == roots.current(trees[i]),
        stays(roots, trees[i]) ==> roots.current(trees[i]) == roots.trees[trees[i].name].pending,
        !stays(roots, trees[i]) ==> is_bare(roots.current(trees[i]), trees[i].versioned),
        roots.read(trees[i]) is Seen && stays(roots, trees[i])
            && roots.trees[trees[i].name].pending == roots.trees[trees[i].name].published
            ==> roots.read(trees[i]) == Reading::Seen(
            roots.transaction_over(trees).trees[i].pending,
        ),
{
    database_laws::lemma_begun_at(roots, trees, i);
    database_laws::lemma_begun(roots, trees, trees[i].name);
}

/// Beginning a transaction, whether it succeeds or not, leaves alone every tree that it does
/// not name, every tree that was written, the log, and everything that the database was
/// opened with. Only one that succeeds takes locks, and only on the trees that it names.
pub proof fn law_begin_leaves_the_rest(
    before: Roots,
    roots: Seq<RootModel>,
    result: Result<ExecutingTransaction, Error>,
    after: Roots,
    name: Seq<char>,
)
    requires
        roots::begin_result(before, roots, result, after),
    ensures
        ({
            let named = exists|i: int| 0 <= i < roots.len() && (#[trigger] roots[i]).name == name;
            let start = before@;
            &&& after@.path == start.path
            &&& after@.context == start.context
            &&& after@.log == start.log
            &&& after@.pool == start.pool
            &&& start.trees.contains_key(name) && (start.trees[name].sealed is Some || !named)
                ==> after@.trees.contains_key(name) && after@.trees[name] == start.trees[name]
            &&& !start.trees.contains_key(name) && !named ==> !after@.trees.contains_key(name)
            &&& !named ==> {
                &&& after@.kinds.contains_key(name) == start.kinds.contains_key(name)
                &&& start.kinds.contains_key(name) ==> after@.kinds[name] == start.kinds[name]
            }
            &&& result is Err || !named ==> {
                &&& after@.locks.contains_key(name) == start.locks.contains_key(name)
                &&& start.locks.contains_key(name) ==> after@.locks[name] == start.locks[name]
            }
        }),
{
    let start = before@;
    let asked = start.numbered().with_kinds(roots, roots.len());
    start.numbered().lemma_with_kinds(roots, roots.len());
    database_laws::lemma_begun(start, roots, name);
    asked.lemma_with_files(roots, roots.len(), name);
    let all = RootsModel::named(roots, roots.len() as int, name);
    if forall|i: int| 0 <= i < roots.len() ==> (#[trigger] roots[i]).name != name {
        database_laws::lemma_kinds_untouched(start.numbered(), roots, roots.len(), name);
    }
    if let Err(error) = result {
        if after@ != start {
            let why = if error.kind is VaultMismatch {
                Refusal::Vault
            } else {
                Refusal::Kind
            };
            let k = choose|k: int| #[trigger]
                start.first_refusal(roots, k, why) && after@ == start.prepared(roots, k as nat);
            asked.lemma_with_files(roots, k as nat, name);
            if RootsModel::named(roots, k, name) {
                let i = choose|i: int| 0 <= i < k && (#[trigger] roots[i]).name == name;
                assert(roots[i].name == name);
                assert(all);
            }
        }
    }
}

/// A transaction begins if and only if every name is valid, no tree is named twice, no tree
/// is held, and every file that was written was written under the vault that counts and as
/// a tree of the kind that is asked for.
pub proof fn law_when_a_transaction_begins(
    before: Roots,
    roots: Seq<RootModel>,
    result: Result<ExecutingTransaction, Error>,
    after: Roots,
)
    requires
        roots::begin_result(before, roots, result, after),
    ensures
        ({
            let start = before@;
            let named = forall|i: int|
                0 <= i < roots.len() ==> names::valid_name((#[trigger] roots[i]).name);
            let twice = exists|i: int, j: int|
                0 <= i < j < roots.len() && (#[trigger] roots[i]).name == (
                #[trigger] roots[j]).name;
            let held = exists|i: int|
                0 <= i < roots.len() && start.locks.contains_key((#[trigger] roots[i]).name);
            let other_vault = exists|i: int|
                0 <= i < roots.len() && {
                    &&& start.trees.contains_key((#[trigger] roots[i]).name)
                    &&& start.trees[roots[i].name].sealed is Some
                    &&& start.trees[roots[i].name].sealed->0 != vault_that_counts(
                        start.context,
                        roots[i].vault,
                    )
                };
            let other_kind = exists|i: int|
                0 <= i < roots.len() && {
                    &&& start.trees.contains_key((#[trigger] roots[i]).name)
                    &&& start.trees[roots[i].name].sealed is Some
                    &&& start.trees[roots[i].name].sealed->0 == vault_that_counts(
                        start.context,
                        roots[i].vault,
                    )
                    &&& start.trees[roots[i].name].versioned != roots[i].versioned
                };
            &&& result is Ok <==> named && !twice && !held && !other_vault && !other_kind
            &&& result matches Err(error) ==> {
                &&& error.kind is InvalidTreeName <==> !named
                &&& error.kind is TreeNamedTwice <==> named && twice
                &&& error.kind is TreeLocked <==> named && !twice && held
                &&& error.kind is VaultMismatch ==> other_vault
                &&& error.kind is KindMismatch ==> other_kind
                &&& named && !twice && !held ==> error.kind is VaultMismatch
                    || error.kind is KindMismatch
            }
        }),
{
    let start = before@;
    match result {
        Ok(_) => {
            assert forall|i: int| 0 <= i < roots.len() implies start.refusal(
                #[trigger] roots[i],
            ) is None by {}
        },
        Err(error) => {
            if error.kind is VaultMismatch || error.kind is KindMismatch {
                let why = if error.kind is VaultMismatch {
                    Refusal::Vault
                } else {
                    Refusal::Kind
                };
                let k = choose|k: int| #[trigger]
                    start.first_refusal(roots, k, why) && after@ == start.prepared(roots, k as nat);
                assert(start.refusal(roots[k]) == Some(why));
            }
        },
    }
}

/// The file of the tree of `root` was written under another vault than the one that counts.
pub open spec fn under_another_vault(roots: RootsModel, root: RootModel) -> bool {
    &&& roots.trees.contains_key(root.name)
    &&& roots.trees[root.name].sealed is Some
    &&& roots.trees[root.name].sealed->0 != vault_that_counts(roots.context, root.vault)
}

/// The file of the tree of `root` was written under the vault that counts, but as a tree of
/// another kind.
pub open spec fn of_another_kind(roots: RootsModel, root: RootModel) -> bool {
    &&& roots.trees.contains_key(root.name)
    &&& roots.trees[root.name].sealed is Some
    &&& roots.trees[root.name].sealed->0 == vault_that_counts(roots.context, root.vault)
    &&& roots.trees[root.name].versioned != root.versioned
}

/// The first tree whose file cannot be opened decides why a transaction cannot begin, and
/// the trees behind it are not made.
pub proof fn law_the_first_refusal_counts(
    before: Roots,
    roots: Seq<RootModel>,
    result: Result<ExecutingTransaction, Error>,
    after: Roots,
    k: int,
    later: int,
)
    requires
        roots::begin_result(before, roots, result, after),
        result matches Err(error) && (error.kind is VaultMismatch || error.kind is KindMismatch),
        0 <= k < roots.len(),
        under_another_vault(before@, roots[k]) || of_another_kind(before@, roots[k]),
        forall|i: int|
            0 <= i < k ==> !under_another_vault(before@, #[trigger] roots[i])
                && !of_another_kind(before@, roots[i]),
    ensures
        result matches Err(error) && {
            &&& error.kind is VaultMismatch <==> under_another_vault(before@, roots[k])
            &&& error.kind is KindMismatch <==> of_another_kind(before@, roots[k])
        },
        k < later < roots.len() && !before@.trees.contains_key(roots[later].name)
            ==> !after@.trees.contains_key(roots[later].name),
{
    let start = before@;
    let error = result->Err_0;
    let why = if error.kind is VaultMismatch {
        Refusal::Vault
    } else {
        Refusal::Kind
    };
    let first = choose|first: int| #[trigger]
        start.first_refusal(roots, first, why) && after@ == start.prepared(roots, first as nat);
    assert(start.refusal(roots[first]) is Some);
    assert(start.refusal(roots[k]) is Some);
    if first < k {
        assert(!under_another_vault(start, roots[first]) && !of_another_kind(start, roots[first]));
    }
    if k < first {
        assert(start.refusal(roots[k]) is None);
    }
    assert(first == k);
    if k < later < roots.len() {
        let name = roots[later].name;
        roots::lemma_apart(start, roots);
        start.numbered().lemma_with_kinds(roots, roots.len());
        start.numbered().with_kinds(roots, roots.len()).lemma_with_files(roots, k as nat, name);
        if RootsModel::named(roots, k, name) {
            let i = choose|i: int| 0 <= i < k && (#[trigger] roots[i]).name == name;
            assert(roots[i].name != roots[later].name);
        }
    }
}

// ---- Ending a transaction ----

/// A transaction ends for each of its trees alone. One whose name still stands for the file
/// that was opened is published, kept for the next transaction, or rolled back as a whole;
/// one that was deleted, or made again, is left alone, and so is every other tree.
pub proof fn law_trees_end_each_for_itself(
    roots: RootsModel,
    trees: Seq<TransactionTreeModel>,
    ending: Ending,
    name: Seq<char>,
    i: int,
)
    requires
        forall|j: int, k: int|
            0 <= j < k < trees.len() ==> (#[trigger] trees[j]).name != (#[trigger] trees[k]).name,
    ensures
        ({
            let after = roots.all_ended(trees, ending, trees.len());
            let slot = roots.trees[name];
            &&& after.path == roots.path
            &&& after.context == roots.context
            &&& after.kinds == roots.kinds
            &&& after.locks == roots.locks
            &&& after.log == roots.log
            &&& after.next_transaction == roots.next_transaction
            &&& after.next_file == roots.next_file
            &&& after.pool == roots.pool
            &&& after.trees.contains_key(name) == roots.trees.contains_key(name)
            &&& (forall|j: int| 0 <= j < trees.len() ==> (#[trigger] trees[j]).name != name)
                ==> after.trees[name] == slot
            &&& 0 <= i < trees.len() && trees[i].name == name && roots.trees.contains_key(
                name,
            ) ==> {
                if slot.file_id == trees[i].file_id && slot.versioned
                    == trees[i].published.versioned {
                    &&& after.trees[name].versioned == slot.versioned
                    &&& after.trees[name].file_id == slot.file_id
                    &&& match ending {
                        Ending::Published => {
                            &&& after.trees[name].published == trees[i].pending
                            &&& after.trees[name].pending == trees[i].pending
                            &&& after.trees[name].stored == trees[i].pending
                            &&& after.trees[name].sealed == Some(trees[i].vault)
                        },
                        Ending::Kept => {
                            &&& after.trees[name].published == slot.published
                            &&& after.trees[name].pending == trees[i].pending
                            &&& after.trees[name].stored == slot.stored
                            &&& after.trees[name].sealed == slot.sealed
                        },
                        Ending::RolledBack => {
                            &&& after.trees[name].published == slot.published
                            &&& after.trees[name].pending == slot.published
                            &&& after.trees[name].stored == slot.stored
                            &&& after.trees[name].sealed == slot.sealed
                        },
                    }
                } else {
                    after.trees[name] == slot
                }
            }
        }),
{
    database_laws::lemma_all_ended_rest(roots, trees, ending, trees.len());
    lemma_ended_at(roots, trees, ending, trees.len(), name, i);
}

proof fn lemma_ended_at(
    roots: RootsModel,
    trees: Seq<TransactionTreeModel>,
    ending: Ending,
    n: nat,
    name: Seq<char>,
    i: int,
)
    requires
        n <= trees.len(),
        forall|j: int, k: int|
            0 <= j < k < trees.len() ==> (#[trigger] trees[j]).name != (#[trigger] trees[k]).name,
    ensures
        ({
            let after = roots.all_ended(trees, ending, n);
            &&& after.trees.contains_key(name) == roots.trees.contains_key(name)
            &&& (forall|j: int| 0 <= j < n ==> (#[trigger] trees[j]).name != name)
                ==> after.trees[name] == roots.trees[name]
            &&& 0 <= i < n && trees[i].name == name ==> after.trees[name] == if roots.holds(
                trees[i],
            ) {
                roots.trees[name].ended(trees[i], ending)
            } else {
                roots.trees[name]
            }
        }),
    decreases n,
{
    if n > 0 {
        let m = (n - 1) as nat;
        lemma_ended_at(roots, trees, ending, m, name, i);
        if 0 <= i < m && trees[i].name == name {
            assert(trees[m as int].name != trees[i].name);
        }
        if i == m && trees[i].name == name {
            assert forall|j: int| 0 <= j < m implies (#[trigger] trees[j]).name != name by {
                assert(trees[j].name != trees[m as int].name);
            }
        }
    }
}

/// A commit that succeeds publishes every tree, all of them together, and pushes one entry
/// to the log, under the vault of the database. One that fails publishes none and pushes
/// nothing; what it leaves is what the next transaction starts from. Either way the
/// transaction lets go of what it held, and of nothing else.
pub proof fn law_commits_are_all_or_nothing<M: FileManager>(
    before: RootsModel,
    files_before: M,
    transaction: TransactionModel,
    result: Result<(), Error>,
    after: RootsModel,
    files_after: M,
    name: Seq<char>,
    i: int,
)
    requires
        forall|j: int, k: int|
            0 <= j < k < transaction.trees.len() ==> (#[trigger] transaction.trees[j]).name != (
            #[trigger] transaction.trees[k]).name,
        roots::commit_result(before, files_before, transaction, result, after, files_after),
    ensures
        ({
            let slot = before.trees[name];
            let tree = transaction.trees[i];
            &&& after.path == before.path
            &&& after.context == before.context
            &&& after.kinds == before.kinds
            &&& after.next_transaction == before.next_transaction
            &&& after.next_file == before.next_file
            &&& after.pool == before.pool
            &&& after.trees.contains_key(name) == before.trees.contains_key(name)
            &&& (forall|j: int|
                0 <= j < transaction.trees.len() ==> (#[trigger] transaction.trees[j]).name
                    != name) ==> after.trees[name] == slot
            &&& 0 <= i < transaction.trees.len() && tree.name == name && before.trees.contains_key(
                name,
            ) && slot.file_id == tree.file_id && slot.versioned == tree.published.versioned ==> {
                &&& after.trees[name].versioned == slot.versioned
                &&& after.trees[name].file_id == slot.file_id
                &&& after.trees[name].pending == tree.pending
                &&& result is Ok ==> {
                    &&& after.trees[name].published == tree.pending
                    &&& after.trees[name].stored == tree.pending
                    &&& after.trees[name].sealed == Some(tree.vault)
                }
                &&& result is Err ==> {
                    &&& after.trees[name].published == slot.published
                    &&& after.trees[name].stored == slot.stored
                    &&& after.trees[name].sealed == slot.sealed
                }
            }
            &&& result is Ok ==> {
                &&& after.log.len() == before.log.len() + 1
                &&& after.log.drop_last() == before.log
                &&& after.log.last().vault == before.context.vault
                &&& after.log.last().entry == transaction.entry
            }
            &&& result is Err ==> after.log == before.log
            &&& let_go(before, transaction, after, name)
        }),
{
    let trees = transaction.trees;
    let logged = before.logged(transaction.entry);
    assert(logged.log.drop_last() =~= before.log);
    law_trees_end_each_for_itself(logged, trees, Ending::Published, name, i);
    law_trees_end_each_for_itself(before, trees, Ending::Kept, name, i);
}

/// `after` holds `name` if and only if `before` did and it was not `transaction` that held
/// it, and in the name of the same transaction.
pub open spec fn let_go(
    before: RootsModel,
    transaction: TransactionModel,
    after: RootsModel,
    name: Seq<char>,
) -> bool {
    let own = before.locks.contains_key(name) && transaction.hold.names.contains(name)
        && before.locks[name] == transaction.hold.id;
    &&& after.locks.contains_key(name) <==> before.locks.contains_key(name) && !own
    &&& after.locks.contains_key(name) ==> after.locks[name] == before.locks[name]
}

/// A transaction that is rolled back leaves every tree as readers saw it, for readers, for
/// the next transaction and in the files. Nothing is pushed to the log, and the transaction
/// lets go of what it held, and of nothing else.
pub proof fn law_rollback_undoes(
    before: RootsModel,
    transaction: TransactionModel,
    name: Seq<char>,
    i: int,
)
    requires
        forall|j: int, k: int|
            0 <= j < k < transaction.trees.len() ==> (#[trigger] transaction.trees[j]).name != (
            #[trigger] transaction.trees[k]).name,
    ensures
        ({
            let after = before.rolled_back(transaction);
            let slot = before.trees[name];
            let tree = transaction.trees[i];
            &&& after.log == before.log
            &&& after.path == before.path
            &&& after.context == before.context
            &&& after.kinds == before.kinds
            &&& after.next_transaction == before.next_transaction
            &&& after.next_file == before.next_file
            &&& after.pool == before.pool
            &&& after.trees.contains_key(name) == before.trees.contains_key(name)
            &&& (forall|j: int|
                0 <= j < transaction.trees.len() ==> (#[trigger] transaction.trees[j]).name
                    != name) ==> after.trees[name] == slot
            &&& 0 <= i < transaction.trees.len() && tree.name == name && before.trees.contains_key(
                name,
            ) && slot.file_id == tree.file_id && slot.versioned == tree.published.versioned ==> {
                &&& after.trees[name].versioned == slot.versioned
                &&& after.trees[name].file_id == slot.file_id
                &&& after.trees[name].sealed == slot.sealed
                &&& after.trees[name].published == slot.published
                &&& after.trees[name].pending == slot.published
                &&& after.trees[name].stored == slot.stored
            }
            &&& let_go(before, transaction, after, name)
        }),
{
    law_trees_end_each_for_itself(before, transaction.trees, Ending::RolledBack, name, i);
}

/// To record a transaction, each of its trees is written, one behind the other, each once.
/// If every write succeeds the entry is pushed once, and what comes of that is the result.
/// If a write fails nothing is pushed, and the first error is the result.
pub proof fn law_recorded_step_by_step<M: FileManager>(
    before: M,
    trees: Seq<TransactionTreeModel>,
    entry: LogEntryModel,
    result: Result<(), Error>,
    after: M,
)
    requires
        files::recorded(before, trees, entry, result, after),
    ensures
        exists|stages: Seq<M>, results: Seq<Result<(), Error>>|
            {
                &&& stages.len() == trees.len() + 1
                &&& results.len() == trees.len()
                &&& stages[0] == before
                &&& forall|i: int|
                    0 <= i < trees.len() ==> #[trigger] M::wrote(
                        stages[i],
                        trees[i],
                        results[i],
                        stages[i + 1],
                    )
                &&& (forall|i: int| 0 <= i < results.len() ==> (#[trigger] results[i]) is Ok)
                    ==> M::pushed(stages[trees.len() as int], entry, result, after)
                &&& forall|i: int|
                    #![trigger results[i]]
                    0 <= i < results.len() && results[i] is Err && (forall|j: int|
                        0 <= j < i ==> (#[trigger] results[j]) is Ok) ==> {
                        &&& result == results[i]
                        &&& after == stages[trees.len() as int]
                    }
            },
{
    let (results, written) = choose|results: Seq<Result<(), Error>>, written: M|
        {
            &&& #[trigger] files::all_wrote(before, trees, results, written)
            &&& if files::all_ok(results) {
                M::pushed(written, entry, result, after)
            } else {
                &&& after == written
                &&& result matches Err(error) && files::first_failure(results, Some(error))
            }
        };
    let stages = lemma_stages(before, trees, results, written);
    assert forall|i: int|
        #![trigger results[i]]
        0 <= i < results.len() && results[i] is Err && (forall|j: int|
            0 <= j < i ==> (#[trigger] results[j]) is Ok) implies {
        &&& result == results[i]
        &&& after == stages[trees.len() as int]
    } by {
        assert(!files::all_ok(results));
        let error = result->Err_0;
        let k = choose|k: int|
            {
                &&& 0 <= k < results.len()
                &&& #[trigger] results[k] == Err::<(), Error>(error)
                &&& files::all_ok(results.take(k))
            };
        if i < k {
            assert(results.take(k)[i] is Ok);
        }
        if k < i {
            assert(results[k] is Ok);
        }
    }
}

proof fn lemma_stages<M: FileManager>(
    before: M,
    trees: Seq<TransactionTreeModel>,
    results: Seq<Result<(), Error>>,
    after: M,
) -> (stages: Seq<M>)
    requires
        files::all_wrote(before, trees, results, after),
    ensures
        stages.len() == trees.len() + 1,
        results.len() == trees.len(),
        stages[0] == before,
        stages[trees.len() as int] == after,
        forall|i: int|
            0 <= i < trees.len() ==> #[trigger] M::wrote(
                stages[i],
                trees[i],
                results[i],
                stages[i + 1],
            ),
    decreases trees.len(),
{
    if trees.len() == 0 {
        seq![before]
    } else {
        let middle = choose|middle: M|
            {
                &&& files::all_wrote(before, trees.drop_last(), results.drop_last(), middle)
                &&& #[trigger] M::wrote(middle, trees.last(), results.last(), after)
            };
        let earlier = lemma_stages(before, trees.drop_last(), results.drop_last(), middle);
        let stages = earlier.push(after);
        let last = trees.len() - 1;
        assert forall|i: int| 0 <= i < trees.len() implies #[trigger] M::wrote(
            stages[i],
            trees[i],
            results[i],
            stages[i + 1],
        ) by {
            if i < last {
                assert(M::wrote(
                    earlier[i],
                    trees.drop_last()[i],
                    results.drop_last()[i],
                    earlier[i + 1],
                ));
            }
        }
        stages
    }
}

// ---- Changes of their own ----

/// A change to a tree that was admitted and recorded is seen by readers, is what the next
/// change starts from, and is in the file, under the vault that counts. It has pushed one
/// entry, of this tree alone, to the log. One that could not be recorded is only what the
/// next change starts from. Every other tree, every lock and everything that the database
/// was opened with stay as they were.
pub proof fn law_changes_concern_one_tree<M: FileManager>(
    before: RootsModel,
    files_before: M,
    root: RootModel,
    tree: TreeModel,
    failure: Option<Error>,
    after: RootsModel,
    files_after: M,
    other: Seq<char>,
)
    requires
        handle::change_result(before, files_before, root, tree, failure, after, files_after),
    ensures
        ({
            let slot = before.trees[root.name];
            let held = before.locks.contains_key(root.name);
            let sealed = before.trees.contains_key(root.name) && slot.sealed is Some;
            let vault = vault_that_counts(before.context, root.vault);
            let admitted = !held && (sealed ==> slot.sealed->0 == vault && slot.versioned
                == root.versioned);
            &&& after.path == before.path
            &&& after.context == before.context
            &&& after.locks == before.locks
            &&& after.pool == before.pool
            &&& held ==> after == before
            &&& !held ==> {
                &&& before.next_transaction < u64::MAX ==> after.next_transaction
                    == before.next_transaction + 1
                &&& after.kinds.contains_key(root.name)
                &&& after.kinds[root.name] == if before.kinds.contains_key(root.name) {
                    before.kinds[root.name]
                } else {
                    root.versioned
                }
            }
            &&& other != root.name ==> {
                &&& after.trees.contains_key(other) == before.trees.contains_key(other)
                &&& after.trees[other] == before.trees[other]
                &&& after.kinds.contains_key(other) == before.kinds.contains_key(other)
                &&& after.kinds[other] == before.kinds[other]
            }
            &&& failure is None ==> {
                &&& admitted
                &&& after.trees.contains_key(root.name)
                &&& after.trees[root.name].published == tree
                &&& after.trees[root.name].pending == tree
                &&& after.trees[root.name].stored == tree
                &&& after.trees[root.name].sealed == Some(vault)
                &&& after.trees[root.name].versioned == root.versioned
                &&& stays(before, root) ==> after.trees[root.name].file_id == slot.file_id
                &&& after.log.len() == before.log.len() + 1
                &&& after.log.drop_last() == before.log
                &&& after.log.last().vault == before.context.vault
                &&& after.log.last().entry.id == before.next_transaction
                &&& after.log.last().entry.trees == seq![root.name]
                &&& after.log.last().entry.data is None
            }
            &&& failure is Some ==> after.log == before.log
            &&& failure is Some && admitted ==> {
                &&& after.trees.contains_key(root.name)
                &&& after.trees[root.name].pending == tree
                &&& stays(before, root) ==> {
                    &&& after.trees[root.name].published == slot.published
                    &&& after.trees[root.name].stored == slot.stored
                    &&& after.trees[root.name].sealed == slot.sealed
                    &&& after.trees[root.name].file_id == slot.file_id
                }
                &&& !stays(before, root) ==> {
                    &&& is_bare(after.trees[root.name].published, root.versioned)
                    &&& after.trees[root.name].sealed is None
                }
            }
            &&& !admitted ==> {
                &&& after.trees == before.trees
                &&& files_after == files_before
                &&& failure matches Some(error) && {
                    &&& held ==> error.kind is TreeLocked
                    &&& !held && slot.sealed->0 != vault ==> error.kind is VaultMismatch
                    &&& !held && slot.sealed->0 == vault ==> error.kind is KindMismatch
                }
            }
        }),
{
    let entry = before.change_entry(root);
    let record = LogRecordModel { vault: before.context.vault, entry };
    assert(before.log.push(record).drop_last() =~= before.log);
}

/// To record a change to a tree, that tree is written, with the change, and then pushed
/// to the log: once each, and only if the write succeeds.
pub proof fn law_changes_are_written<M: FileManager>(
    before: RootsModel,
    files_before: M,
    root: RootModel,
    tree: TreeModel,
    failure: Option<Error>,
    after: RootsModel,
    files_after: M,
)
    requires
        handle::change_result(before, files_before, root, tree, failure, after, files_after),
        before.admits(root),
    ensures
        exists|written: TransactionTreeModel, answer: Result<(), Error>, next: M|
            {
                &&& #[trigger] M::wrote(files_before, written, answer, next)
                &&& written.name == root.name
                &&& written.pending == tree
                &&& written.vault == vault_that_counts(before.context, root.vault)
                &&& written.transaction_id == before.next_transaction
                &&& answer is Err ==> files_after == next && failure == Some(answer->Err_0)
                &&& answer is Ok ==> M::pushed(
                    next,
                    LogEntryModel {
                        id: before.next_transaction,
                        trees: seq![root.name],
                        data: None,
                    },
                    if failure is Some {
                        Err(failure->0)
                    } else {
                        Ok(())
                    },
                    files_after,
                )
            },
{
    let written = before.change_tree(root, tree);
    let entry = before.change_entry(root);
    let outcome = match failure {
        Some(error) => Err(error),
        None => Ok(()),
    };
    let trees = seq![written];
    law_recorded_step_by_step(files_before, trees, entry, outcome, files_after);
    let (stages, results) = choose|stages: Seq<M>, results: Seq<Result<(), Error>>|
        {
            &&& stages.len() == trees.len() + 1
            &&& results.len() == trees.len()
            &&& stages[0] == files_before
            &&& forall|i: int|
                0 <= i < trees.len() ==> #[trigger] M::wrote(
                    stages[i],
                    trees[i],
                    results[i],
                    stages[i + 1],
                )
            &&& (forall|i: int| 0 <= i < results.len() ==> (#[trigger] results[i]) is Ok)
                ==> M::pushed(stages[trees.len() as int], entry, outcome, files_after)
            &&& forall|i: int|
                #![trigger results[i]]
                0 <= i < results.len() && results[i] is Err && (forall|j: int|
                    0 <= j < i ==> (#[trigger] results[j]) is Ok) ==> {
                    &&& outcome == results[i]
                    &&& files_after == stages[trees.len() as int]
                }
        };
    assert(M::wrote(stages[0int], trees[0int], results[0int], stages[0int + 1]));
    assert(M::wrote(files_before, written, results[0int], stages[1int]));
    if results[0int] is Ok {
        assert forall|i: int| 0 <= i < results.len() implies (#[trigger] results[i]) is Ok by {}
        assert(M::pushed(stages[1int], entry, outcome, files_after));
    }
}

/// What a change starts from: what the last transaction over the tree has left of it, or
/// an empty tree of the kind that is asked for where there was none.
pub proof fn law_changes_start_from_what_is_pending(roots: RootsModel, root: RootModel)
    ensures
        stays(roots, root) ==> roots.current(root) == roots.trees[root.name].pending,
        !stays(roots, root) ==> is_bare(roots.current(root), root.versioned),
{
}

/// A swap that finds another value rolls its change back: readers see what they saw, and
/// the next change starts from that. Every other tree, the log and every lock stay.
pub proof fn law_refused_swaps_are_rolled_back(
    roots: RootsModel,
    root: RootModel,
    other: Seq<char>,
)
    ensures
        ({
            let after = roots.abandoned(root);
            let slot = roots.trees[root.name];
            &&& after.log == roots.log
            &&& after.locks == roots.locks
            &&& after.path == roots.path
            &&& after.context == roots.context
            &&& after.pool == roots.pool
            &&& after.trees.contains_key(root.name)
            &&& stays(roots, root) ==> {
                &&& after.trees[root.name].published == slot.published
                &&& after.trees[root.name].pending == slot.published
                &&& after.trees[root.name].stored == slot.stored
                &&& after.trees[root.name].sealed == slot.sealed
                &&& after.trees[root.name].file_id == slot.file_id
            }
            &&& !stays(roots, root) ==> {
                &&& is_bare(after.trees[root.name].published, root.versioned)
                &&& is_bare(after.trees[root.name].pending, root.versioned)
            }
            &&& other != root.name ==> {
                &&& after.trees.contains_key(other) == roots.trees.contains_key(other)
                &&& after.trees[other] == roots.trees[other]
            }
        }),
{
}

// ---- Reading ----

/// A reader finds no tree where there is none under the name, is refused where the file was
/// written under another vault than the one that counts, or as a tree of another kind, and
/// sees what was published everywhere else.
pub proof fn law_readers_see_what_was_published(roots: RootsModel, root: RootModel)
    ensures
        ({
            let slot = roots.trees[root.name];
            let vault = vault_that_counts(roots.context, root.vault);
            &&& roots.read(root) is Missing <==> !roots.trees.contains_key(root.name)
            &&& roots.read(root) == Reading::Refused(Refusal::Vault)
                <==> roots.trees.contains_key(root.name) && slot.sealed is Some && slot.sealed->0
                != vault
            &&& roots.read(root) == Reading::Refused(Refusal::Kind) <==> roots.trees.contains_key(
                root.name,
            ) && slot.sealed is Some && slot.sealed->0 == vault && slot.versioned
                != root.versioned
            &&& roots.read(root) matches Reading::Seen(tree) ==> tree == slot.published
        }),
{
}

/// A read that is refused fails with the error that says why, and one that finds no file
/// with the error for that.
pub proof fn law_failed_reads_say_why<T, E>(
    result: Result<T, Error>,
    abortable: Result<T, AbortError<E>>,
    error: Error,
)
    ensures
        roots::is_refusal(error, Refusal::Vault) <==> error.kind is VaultMismatch,
        roots::is_refusal(error, Refusal::Kind) <==> error.kind is KindMismatch,
        handle::refused(result, Refusal::Vault) <==> result is Err && result->Err_0.kind
            is VaultMismatch,
        handle::refused(result, Refusal::Kind) <==> result is Err && result->Err_0.kind
            is KindMismatch,
        handle::missing(result) <==> result is Err && result->Err_0.kind is FileNotFound,
        handle::refused_abortable(abortable, Refusal::Vault) <==> (abortable matches Err(
            AbortError::Nebari(inner),
        ) && inner.kind is VaultMismatch),
        handle::refused_abortable(abortable, Refusal::Kind) <==> (abortable matches Err(
            AbortError::Nebari(inner),
        ) && inner.kind is KindMismatch),
        handle::missing_abortable(abortable) <==> (abortable matches Err(AbortError::Nebari(inner))
            && inner.kind is FileNotFound),
        handle::failure_of(result) is Some <==> result is Err,
        result is Err ==> handle::failure_of(result) == Some(result->Err_0),
{
}

/// A tree is counted by what the next transaction would start from, or, while a transaction
/// holds it, by what that one has left of it so far. One that is not there is not counted.
pub proof fn law_the_latest_state_counts(
    roots: RootsModel,
    name: Seq<char>,
    transaction: TransactionModel,
    i: int,
)
    requires
        0 <= i < transaction.trees.len(),
        forall|j: int, k: int|
            0 <= j < k < transaction.trees.len() ==> (#[trigger] transaction.trees[j]).name != (
            #[trigger] transaction.trees[k]).name,
    ensures
        !roots.trees.contains_key(name) ==> {
            &&& roots.latest(name, None) is None
            &&& roots.latest(name, Some(transaction)) is None
        },
        roots.trees.contains_key(name) ==> {
            let slot = roots.trees[name];
            let tree = transaction.trees[i];
            &&& roots.latest(name, None) == Some(slot.pending)
            &&& tree.name == name && slot.file_id == tree.file_id && slot.versioned
                == tree.published.versioned ==> roots.latest(name, Some(transaction)) == Some(
                tree.pending,
            )
            &&& tree.name == name && !(slot.file_id == tree.file_id && slot.versioned
                == tree.published.versioned) ==> roots.latest(name, Some(transaction)) == Some(
                slot.pending,
            )
            &&& (forall|j: int|
                0 <= j < transaction.trees.len() ==> (#[trigger] transaction.trees[j]).name
                    != name) ==> roots.latest(name, Some(transaction)) == Some(slot.pending)
        },
{
    lemma_named(transaction, name, i, transaction.trees.len());
}

proof fn lemma_named(transaction: TransactionModel, name: Seq<char>, i: int, n: nat)
    requires
        n <= transaction.trees.len(),
        0 <= i < transaction.trees.len(),
        forall|j: int, k: int|
            0 <= j < k < transaction.trees.len() ==> (#[trigger] transaction.trees[j]).name != (
            #[trigger] transaction.trees[k]).name,
    ensures
        i < n && transaction.trees[i].name == name ==> transaction.named_before(name, n) == Some(
            transaction.trees[i],
        ),
        (forall|j: int| 0 <= j < n ==> (#[trigger] transaction.trees[j]).name != name)
            ==> transaction.named_before(name, n) is None,
    decreases n,
{
    if n > 0 {
        lemma_named(transaction, name, i, (n - 1) as nat);
        if i == n - 1 && transaction.trees[i].name == name {
            assert forall|j: int| 0 <= j < n - 1 implies (#[trigger] transaction.trees[j]).name
                != name by {
                assert(transaction.trees[j].name != transaction.trees[n - 1].name);
            }
        }
    }
}

// ---- Files ----

/// Asking for a tree makes it, empty, where there is none, and keeps one that was written or
/// made before as one of the same kind. Every other tree, the log and every lock stay.
pub proof fn law_opening_a_tree_keeps_it(roots: RootsModel, root: RootModel, other: Seq<char>)
    ensures
        ({
            let after = roots.with_tree(root);
            &&& after.path == roots.path
            &&& after.context == roots.context
            &&& after.log == roots.log
            &&& after.locks == roots.locks
            &&& after.next_transaction == roots.next_transaction
            &&& after.pool == roots.pool
            &&& after.trees.contains_key(root.name)
            &&& stays(roots, root) ==> after.trees[root.name] == roots.trees[root.name]
            &&& !stays(roots, root) ==> {
                &&& is_bare(after.trees[root.name].published, root.versioned)
                &&& is_bare(after.trees[root.name].pending, root.versioned)
                &&& is_bare(after.trees[root.name].stored, root.versioned)
                &&& after.trees[root.name].versioned == root.versioned
                &&& after.trees[root.name].sealed is None
            }
            &&& !roots.trees.contains_key(root.name) ==> {
                &&& after.trees[root.name].file_id == roots.next_file
                &&& after.next_file != roots.next_file
            }
            &&& roots.trees.contains_key(root.name) ==> {
                &&& after.trees[root.name].file_id == roots.trees[root.name].file_id
                &&& after.next_file == roots.next_file
            }
            &&& after.kinds.contains_key(root.name)
            &&& !roots.kinds.contains_key(root.name) ==> after.kinds[root.name] == root.versioned
            &&& roots.kinds.contains_key(root.name) ==> after.kinds == roots.kinds
            &&& other != root.name ==> {
                &&& after.trees.contains_key(other) == roots.trees.contains_key(other)
                &&& after.trees[other] == roots.trees[other]
                &&& after.kinds.contains_key(other) == roots.kinds.contains_key(other)
                &&& after.kinds[other] == roots.kinds[other]
            }
        }),
{
}

/// A transaction makes the files of its trees in turn, as if they were asked for one by one.
pub proof fn law_files_are_made_in_turn(roots: RootsModel, trees: Seq<RootModel>, n: nat)
    requires
        n < trees.len(),
    ensures
        ({
            let before = roots.prepared(trees, n);
            let after = roots.prepared(trees, n + 1);
            let name = trees[n as int].name;
            &&& !before.trees.contains_key(name) ==> {
                &&& after.trees.contains_key(name)
                &&& after.trees[name].file_id == before.next_file
                &&& after.next_file != before.next_file
            }
            &&& before.trees.contains_key(name) ==> {
                &&& after.trees.contains_key(name)
                &&& after.trees[name].file_id == before.trees[name].file_id
                &&& after.next_file == before.next_file
            }
        }),
{
}

/// A tree agrees with how it was asked for before if it was not asked for as one of the
/// other kind.
pub proof fn law_kinds_agree(roots: RootsModel, root: RootModel)
    ensures
        roots.agrees(root) <==> !(roots.kinds.contains_key(root.name) && roots.kinds[root.name]
            != root.versioned),
{
}

/// Deleting a tree takes it away, with the kind that it was asked for as, and leaves
/// everything else, even a lock on its name.
pub proof fn law_deletion_takes_one_tree(roots: RootsModel, name: Seq<char>, other: Seq<char>)
    ensures
        ({
            let after = roots.deleted(name);
            &&& after.path == roots.path
            &&& after.context == roots.context
            &&& after.log == roots.log
            &&& after.locks == roots.locks
            &&& after.next_transaction == roots.next_transaction
            &&& after.next_file == roots.next_file
            &&& after.pool == roots.pool
            &&& !after.trees.contains_key(name)
            &&& !after.kinds.contains_key(name)
            &&& other != name ==> {
                &&& after.trees.contains_key(other) == roots.trees.contains_key(other)
                &&& roots.trees.contains_key(other) ==> after.trees[other] == roots.trees[other]
                &&& after.kinds.contains_key(other) == roots.kinds.contains_key(other)
                &&& roots.kinds.contains_key(other) ==> after.kinds[other] == roots.kinds[other]
            }
        }),
{
}

/// Compacting a tree moves what it holds to a new file, and changes nothing else.
pub proof fn law_compaction_moves_one_tree(roots: RootsModel, name: Seq<char>, other: Seq<char>)
    requires
        roots.trees.contains_key(name),
    ensures
        ({
            let after = roots.compacted(name);
            let slot = roots.trees[name];
            &&& after.path == roots.path
            &&& after.context == roots.context
            &&& after.kinds == roots.kinds
            &&& after.log == roots.log
            &&& after.locks == roots.locks
            &&& after.next_transaction == roots.next_transaction
            &&& after.pool == roots.pool
            &&& after.trees.contains_key(name)
            &&& after.trees[name].file_id == roots.next_file
            &&& after.next_file != roots.next_file
            &&& after.trees[name].versioned == slot.versioned
            &&& after.trees[name].sealed == slot.sealed
            &&& after.trees[name].published == slot.published
            &&& after.trees[name].pending == slot.pending
            &&& after.trees[name].stored == slot.stored
            &&& other != name ==> {
                &&& after.trees.contains_key(other) == roots.trees.contains_key(other)
                &&& after.trees[other] == roots.trees[other]
            }
        }),
{
}

/// Numbers are given in turn, from the one on to the next, until they run round.
pub proof fn law_numbers_follow_each_other(id: u64, roots: RootsModel)
    ensures
        id < u64::MAX ==> database::following(id) == id + 1,
        database::following(u64::MAX) == 0,
        roots.numbered().next_transaction == database::following(roots.next_transaction),
{
}

// ---- Opening and closing ----

/// What a database stores when it is closed is what its files hold, under the same names,
/// kinds and vaults, and its log.
pub proof fn law_closing_keeps_the_files(roots: RootsModel, name: Seq<char>)
    ensures
        ({
            let stored = roots.storage();
            let slot = roots.trees[name];
            &&& stored.kind == roots.context.file_manager
            &&& stored.log == roots.log
            &&& stored.next_file == roots.next_file
            &&& stored.next_transaction == roots.next_transaction
            &&& stored.trees.contains_key(name) == roots.trees.contains_key(name)
            &&& roots.trees.contains_key(name) ==> {
                &&& stored.trees[name].versioned == slot.versioned
                &&& stored.trees[name].file_id == slot.file_id
                &&& stored.trees[name].sealed == slot.sealed
                &&& stored.trees[name].contents == slot.stored
            }
        }),
{
}

/// A database that is opened has the trees that are stored, and no others. Where the whole
/// log was written under its vault, readers see what the files hold, and the next
/// transaction starts from that. Otherwise both find empty trees. Nothing is held, and no
/// tree has been asked for.
pub proof fn law_opening_shows_what_is_stored(
    path: Seq<char>,
    context: Context,
    stored: StorageModel,
    pool: PoolModel,
    name: Seq<char>,
)
    ensures
        ({
            let opened = RootsModel::opened_on(path, context, stored, pool);
            let tree = stored.trees[name];
            let slot = opened.trees[name];
            let readable = forall|i: int|
                0 <= i < stored.log.len() ==> (#[trigger] stored.log[i]).vault == context.vault;
            &&& opened.path == path
            &&& opened.context == context
            &&& opened.pool == pool
            &&& opened.log == stored.log
            &&& opened.next_file == stored.next_file
            &&& opened.next_transaction == stored.next_transaction
            &&& !opened.locks.contains_key(name)
            &&& !opened.kinds.contains_key(name)
            &&& opened.trees.contains_key(name) == stored.trees.contains_key(name)
            &&& stored.trees.contains_key(name) ==> {
                &&& slot.versioned == tree.versioned
                &&& slot.file_id == tree.file_id
                &&& slot.sealed == tree.sealed
                &&& slot.stored == tree.contents
                &&& readable ==> slot.published == tree.contents && slot.pending == tree.contents
                &&& !readable ==> is_bare(slot.published, tree.versioned) && is_bare(
                    slot.pending,
                    tree.versioned,
                )
            }
        }),
{
}

/// A database that is closed and opened again under its vault shows readers what they saw
/// before, and the next transaction over a tree starts from that, whatever the kind of the
/// tree: nothing that was committed is lost.
pub proof fn law_nothing_committed_is_lost(
    roots: RootsModel,
    path: Seq<char>,
    context: Context,
    pool: PoolModel,
    reader: RootModel,
)
    requires
        roots.consistent(),
        roots.readable(),
        context.vault == roots.context.vault,
    ensures
        ({
            let again = RootsModel::opened_on(path, context, roots.storage(), pool);
            let name = reader.name;
            &&& again.trees.contains_key(name) == roots.trees.contains_key(name)
            &&& roots.trees.contains_key(name) ==> {
                &&& again.trees[name].published == roots.trees[name].published
                &&& again.trees[name].pending == roots.trees[name].published
                &&& again.trees[name].stored == roots.trees[name].stored
                &&& again.trees[name].sealed == roots.trees[name].sealed
                &&& again.trees[name].versioned == roots.trees[name].versioned
            }
            &&& again.read(reader) == roots.read(reader)
            &&& stays(roots, reader) && roots.read(reader) is Seen ==> again.read(reader)
                == Reading::Seen(again.current(reader))
            &&& again.log == roots.log
        }),
{
    law_closing_keeps_the_files(roots, reader.name);
    law_opening_shows_what_is_stored(path, context, roots.storage(), pool, reader.name);
}

/// A database is opened as it was configured: in its directory, with its vault and its
/// cache, and on what is stored already. Without that nothing is stored, and files are kept
/// in the file system.
pub proof fn law_databases_are_opened_as_configured(
    config: ConfigModel,
    pool: PoolModel,
    path: Seq<char>,
    name: Seq<char>,
)
    ensures
        ({
            let opened = config.opened(pool);
            &&& opened.path == config.path
            &&& opened.pool == pool
            &&& opened.context.vault == config.vault
            &&& opened.context.cache == config.cache
            &&& config.storage matches Some(stored) ==> {
                &&& opened == RootsModel::opened_on(config.path, opened.context, stored, pool)
                &&& opened.context.file_manager == stored.kind
            }
            &&& config.storage is None ==> {
                &&& opened.context.file_manager == StorageKind::FileSystem
                &&& !opened.trees.contains_key(name)
                &&& opened.log.len() == 0
            }
            &&& ConfigModel::plain(path).path == path
            &&& ConfigModel::plain(path).vault is None
            &&& ConfigModel::plain(path).cache is None
            &&& ConfigModel::plain(path).storage is None
            &&& ConfigModel::plain(path).pool is None
        }),
{
}

/// Where nothing is stored there is no tree and no entry in the log.
pub proof fn law_empty_storage(kind: StorageKind, name: Seq<char>)
    ensures
        StorageModel::empty(kind).kind == kind,
        !StorageModel::empty(kind).trees.contains_key(name),
        StorageModel::empty(kind).log.len() == 0,
{
}

/// The vault of the tree's own counts before that of the database.
pub proof fn law_vault_for_a_tree(context: Context, own: Option<Vault>)
    ensures
        own is Some ==> context.vault_for(own) == own,
        own is None ==> context.vault_for(own) == context.vault,
{
}

/// Errors are passed on as they are, whatever they are wrapped in.
pub proof fn law_errors_are_passed_on<E>(kind: ErrorKind, message: String, error: Error)
    ensures
        <Error as vstd::std_specs::convert::FromSpec<ErrorKind>>::from_spec(kind).kind == kind,
        <Error as vstd::std_specs::convert::FromSpec<String>>::from_spec(message).kind
            == ErrorKind::Message(message),
        <CompareAndSwapError as vstd::std_specs::convert::FromSpec<Error>>::from_spec(error)
            == CompareAndSwapError::Error(error),
        <AbortError<E> as vstd::std_specs::convert::FromSpec<Error>>::from_spec(error)
            == AbortError::<E>::Nebari(error),
{
}

/// A path that is no directory is named in the message for that.
pub proof fn law_message_for_what_is_no_directory(shown: Seq<char>)
    ensures
        roots::not_a_directory(shown) == "'"@ + shown
            + "' already exists, but is not a directory."@,
{
}

// ---- One call behind the other ----

/// A transaction over several trees that sets one key in one of them, and is committed, has
/// set that key and nothing else: every other key of that tree, and every key of the other
/// trees, holds what the transaction found it to hold when it began.
pub proof fn law_transactions_keep_every_other_key<M: FileManager>(
    before: Roots,
    roots: Seq<RootModel>,
    begun: Result<ExecutingTransaction, Error>,
    executing: Roots,
    i: int,
    key: Seq<u8>,
    value: Seq<u8>,
    transaction: TransactionModel,
    files_before: M,
    after: RootsModel,
    files_after: M,
    j: int,
    other: Seq<u8>,
)
    requires
        before.wf(),
        roots::begin_result(before, roots, begun, executing),
        begun is Ok,
        0 <= i < roots.len(),
        0 <= j < roots.len(),
        transaction.hold == begun->Ok_0@.hold,
        transaction.trees == begun->Ok_0@.trees.update(
            i,
            begun->Ok_0@.trees[i].changed(begun->Ok_0@.trees[i].pending.set(key, value)),
        ),
        roots::commit_result(
            executing@,
            files_before,
            transaction,
            Ok(()),
            after,
            files_after,
        ),
    ensures
        ({
            let name = roots[j].name;
            let held = stays(before@, roots[j])
                && before@.trees[name].pending.contents.contains_key(other);
            &&& after.read(roots[j]) matches Reading::Seen(tree) && {
                &&& j == i ==> tree.contents.contains_key(key) && tree.contents[key].value == value
                &&& j != i || other != key ==> {
                    &&& tree.contents.contains_key(other) == held
                    &&& held ==> tree.contents[other]
                        == before@.trees[name].pending.contents[other]
                }
            }
            &&& !after.locks.contains_key(name)
        }),
{
    let start = begun->Ok_0@;
    law_every_tree_begins_from_its_own_state(before, roots, begun, executing, i);
    law_every_tree_begins_from_its_own_state(before, roots, begun, executing, j);
    law_begin_leaves_the_rest(before, roots, begun, executing, roots[j].name);
    roots::lemma_apart(before@, roots);
    assert forall|a: int, b: int| 0 <= a < b < transaction.trees.len() implies (
    #[trigger] transaction.trees[a]).name != (#[trigger] transaction.trees[b]).name by {
        law_every_tree_begins_from_its_own_state(before, roots, begun, executing, a);
        law_every_tree_begins_from_its_own_state(before, roots, begun, executing, b);
        assert(roots[a].name != roots[b].name);
    }
    law_commits_are_all_or_nothing(
        executing@,
        files_before,
        transaction,
        Ok(()),
        after,
        files_after,
        roots[j].name,
        j,
    );
    assert(transaction.hold.names.contains(roots[j].name)) by {
        assert(start.hold.names[j] == roots[j].name);
    }
    law_readers_see_what_was_published(after, roots[j]);
    assert(after.context == before@.context);
}

/// A key that is set in a tree of a database that was closed and opened again is added to
/// what was there: every other key holds what readers saw before.
pub proof fn law_reopened_trees_keep_every_other_key<M: FileManager>(
    roots: RootsModel,
    path: Seq<char>,
    context: Context,
    pool: PoolModel,
    reader: RootModel,
    key: Seq<u8>,
    value: Seq<u8>,
    files_before: M,
    after: RootsModel,
    files_after: M,
    other: Seq<u8>,
)
    requires
        roots.consistent(),
        roots.readable(),
        context.vault == roots.context.vault,
        roots.trees.contains_key(reader.name),
        roots.trees[reader.name].sealed is Some,
        handle::change_result(
            RootsModel::opened_on(path, context, roots.storage(), pool),
            files_before,
            reader,
            RootsModel::opened_on(path, context, roots.storage(), pool).current(reader).set(
                key,
                value,
            ),
            None,
            after,
            files_after,
        ),
    ensures
        roots.read(reader) matches Reading::Seen(seen) && after.read(reader) matches Reading::Seen(
            now,
        ) && {
            &&& now.contents.contains_key(key)
            &&& now.contents[key].value == value
            &&& other != key ==> {
                &&& now.contents.contains_key(other) == seen.contents.contains_key(other)
                &&& seen.contents.contains_key(other) ==> now.contents[other]
                    == seen.contents[other]
            }
            &&& now.contents.dom().len() == seen.contents.dom().len()
                + if seen.contents.contains_key(key) {
                0int
            } else {
                1
            }
        },
{
    let again = RootsModel::opened_on(path, context, roots.storage(), pool);
    let tree = again.current(reader).set(key, value);
    law_nothing_committed_is_lost(roots, path, context, pool, reader);
    law_changes_concern_one_tree(
        again,
        files_before,
        reader,
        tree,
        None,
        after,
        files_after,
        reader.name,
    );
    law_readers_see_what_was_published(roots, reader);
    law_readers_see_what_was_published(again, reader);
    law_readers_see_what_was_published(after, reader);
    let seen = roots.trees[reader.name].published;
    assert(seen.consistent());
    assert(tree.contents.dom() =~= seen.contents.dom().insert(key));
}

/// A key that is set is read back, and so is what was read before of every other key, until
/// it is changed in turn.
pub proof fn law_a_read_gives_back_what_was_set<M: FileManager>(
    before: RootsModel,
    files_before: M,
    root: RootModel,
    key: Seq<u8>,
    value: Seq<u8>,
    after: RootsModel,
    files_after: M,
    other: Seq<u8>,
)
    requires
        handle::change_result(
            before,
            files_before,
            root,
            before.current(root).set(key, value),
            None,
            after,
            files_after,
        ),
    ensures
        after.read(root) matches Reading::Seen(now) && {
            &&& now.contents.contains_key(key)
            &&& now.contents[key].value == value
            &&& other != key ==> {
                let held = stays(before, root)
                    && before.trees[root.name].pending.contents.contains_key(other);
                &&& now.contents.contains_key(other) == held
                &&& held ==> now.contents[other]
                    == before.trees[root.name].pending.contents[other]
            }
        },
{
    let tree = before.current(root).set(key, value);
    law_changes_concern_one_tree(
        before,
        files_before,
        root,
        tree,
        None,
        after,
        files_after,
        root.name,
    );
    law_readers_see_what_was_published(after, root);
    law_changes_start_from_what_is_pending(before, root);
}

/// A key that is removed is not read any more, and every other key as before.
pub proof fn law_a_removed_key_is_gone<M: FileManager>(
    before: RootsModel,
    files_before: M,
    root: RootModel,
    key: Seq<u8>,
    after: RootsModel,
    files_after: M,
    other: Seq<u8>,
)
    requires
        handle::change_result(
            before,
            files_before,
            root,
            before.current(root).remove(key),
            None,
            after,
            files_after,
        ),
    ensures
        after.read(root) matches Reading::Seen(now) && {
            &&& !now.contents.contains_key(key)
            &&& other != key ==> {
                let held = stays(before, root)
                    && before.trees[root.name].pending.contents.contains_key(other);
                &&& now.contents.contains_key(other) == held
                &&& held ==> now.contents[other]
                    == before.trees[root.name].pending.contents[other]
            }
        },
{
    let tree = before.current(root).remove(key);
    law_changes_concern_one_tree(
        before,
        files_before,
        root,
        tree,
        None,
        after,
        files_after,
        root.name,
    );
    law_readers_see_what_was_published(after, root);
    law_changes_start_from_what_is_pending(before, root);
}

// ---- The parts of a transaction ----

/// Changing a tree within a transaction changes what the transaction sees of it, and not
/// what readers see. Noting that it was written changes nothing else.
pub proof fn law_changes_stay_within(
    tree: TransactionTreeModel,
    pending: TreeModel,
    written: bool,
)
    ensures
        tree.changed(pending).pending == pending,
        tree.changed(pending).published == tree.published,
        tree.changed(pending).name == tree.name,
        tree.changed(pending).file_id == tree.file_id,
        tree.changed(pending).vault == tree.vault,
        tree.changed(pending).transaction_id == tree.transaction_id,
        !tree.changed(pending).written,
        tree.noted(written).written == written,
        tree.noted(written).pending == tree.pending,
        tree.noted(written).published == tree.published,
        tree.noted(written).name == tree.name,
        tree.noted(written).file_id == tree.file_id,
        tree.noted(written).vault == tree.vault,
        tree.noted(written).transaction_id == tree.transaction_id,
{
}

/// Trees, names and entries are taken as they stand, each in its place.
pub proof fn law_taken_in_place(
    trees: Seq<TransactionTree>,
    unlocked: Seq<UnlockedTransactionTree>,
    roots: Seq<TreeRoot>,
    strings: Seq<String>,
    records: Seq<LogRecord>,
    models: Seq<TransactionTreeModel>,
    results: Seq<Result<(), Error>>,
    written: bool,
    i: int,
)
    ensures
        pool::all_trees(trees).len() == trees.len(),
        0 <= i < trees.len() ==> pool::all_trees(trees)[i] == trees[i]@,
        transaction::all_unlocked(unlocked).len() == unlocked.len(),
        0 <= i < unlocked.len() ==> transaction::all_unlocked(unlocked)[i] == unlocked[i]@,
        roots::all_roots(roots).len() == roots.len(),
        0 <= i < roots.len() ==> {
            &&& roots::all_roots(roots)[i].name == roots[i].name@
            &&& roots::all_roots(roots)[i].versioned == roots[i].versioned
            &&& roots::all_roots(roots)[i].vault == roots[i].vault
        },
        names::all_chars(strings).len() == strings.len(),
        0 <= i < strings.len() ==> names::all_chars(strings)[i] == strings[i]@,
        storage::all_records(records).len() == records.len(),
        0 <= i < records.len() ==> {
            &&& storage::all_records(records)[i].vault == records[i].vault
            &&& storage::all_records(records)[i].entry == records[i].entry@
        },
        pool::all_noted(models, results).len() == models.len(),
        0 <= i < models.len() ==> pool::all_noted(models, results)[i] == (TransactionTreeModel {
            written: results[i] is Ok,
            ..models[i]
        }),
        pool::noted_as(models, written).len() == models.len(),
        0 <= i < models.len() ==> pool::noted_as(models, written)[i] == (TransactionTreeModel {
            written,
            ..models[i]
        }),
{
}

/// Versioned trees keep every change, and unversioned trees none.
pub proof fn law_kinds_of_trees()
    ensures
        Versioned::keeps_changes(),
        !Unversioned::keeps_changes(),
{
}

/// Eight bytes less than 16 MiB may be stored with an entry.
pub proof fn law_limit_of_data()
    ensures
        transaction::MAXIMUM_DATA_LENGTH == 16 * 1024 * 1024 - 8,
{
}

/// A pool starts no thread for a single tree. For several it starts threads until there are
/// as many as trees, or as many as it may have, and stops none.
pub proof fn law_threads_for_trees(pool: PoolModel, running: u16, trees: nat)
    requires
        trees <= 1 || 0 < pool.maximum && (trees <= u16::MAX || pool.maximum <= u16::MAX),
    ensures
        pool.serves(trees),
        trees <= 1 ==> pool.grown(running, trees) == running,
        trees > 1 && trees <= pool.maximum ==> pool.grown(running, trees) == if running >= trees {
            running as nat
        } else {
            trees
        },
        trees > 1 && trees > pool.maximum ==> pool.grown(running, trees) == if running
            >= pool.maximum {
            running as usize
        } else {
            pool.maximum
        },
{
}

/// Attempt `n` may have met a compaction.
pub open spec fn met_compaction<R, F: Fn(u64) -> Result<R, Error>>(func: F, n: u64) -> bool {
    exists|answer: Result<R, Error>|
        {
            &&& #[trigger] call_ensures(func, (n,), answer)
            &&& answer is Err
            &&& answer->Err_0.kind is TreeCompacted
        }
}

/// The threads that a pool wants are none for a single tree, and otherwise one for each
/// tree, as far as it may have them. It comes to them one by one.
pub proof fn law_threads_are_started_one_by_one(pool: PoolModel, running: u16, trees: nat)
    ensures
        trees <= 1 ==> pool.desired(trees) == 0,
        trees > 1 && trees <= pool.maximum ==> pool.desired(trees) == trees,
        trees > 1 && trees > pool.maximum ==> pool.desired(trees) == pool.maximum,
        trees <= 1 || running >= trees || running >= pool.maximum ==> pool.stepped(running, trees)
            == running,
        trees > 1 && running < trees && running < pool.maximum && running < u16::MAX
            ==> pool.stepped(running, trees) == running + 1,
{
}

/// The failure of several writes is the first error among them, if there is one.
pub proof fn law_the_first_error_counts(results: Seq<Result<(), Error>>, failure: Option<Error>)
    requires
        files::first_failure(results, failure),
    ensures
        failure is None <==> forall|i: int|
            0 <= i < results.len() ==> (#[trigger] results[i]) is Ok,
        forall|i: int|
            #![trigger results[i]]
            0 <= i < results.len() && results[i] is Err && (forall|j: int|
                0 <= j < i ==> (#[trigger] results[j]) is Ok) ==> failure == Some(
                results[i]->Err_0,
            ),
{
    if let Some(error) = failure {
        let k = choose|k: int|
            {
                &&& 0 <= k < results.len()
                &&& #[trigger] results[k] == Err::<(), Error>(error)
                &&& files::all_ok(results.take(k))
            };
        assert(results[k] is Err);
        assert forall|i: int|
            #![trigger results[i]]
            0 <= i < results.len() && results[i] is Err && (forall|j: int|
                0 <= j < i ==> (#[trigger] results[j]) is Ok) implies failure == Some(
            results[i]->Err_0,
        ) by {
            if i < k {
                assert(results.take(k)[i] is Ok);
            }
            if k < i {
                assert(results[k] is Ok);
            }
        }
    }
}

/// A pool writes each tree once, one behind the other, and there is one result for each.
pub proof fn law_each_tree_is_written_once<M: FileManager>(
    before: M,
    trees: Seq<TransactionTreeModel>,
    results: Seq<Result<(), Error>>,
    after: M,
)
    requires
        files::all_wrote(before, trees, results, after),
    ensures
        results.len() == trees.len(),
        exists|stages: Seq<M>|
            {
                &&& stages.len() == trees.len() + 1
                &&& stages.first() == before
                &&& #[trigger] stages.last() == after
                &&& forall|i: int|
                    0 <= i < trees.len() ==> #[trigger] M::wrote(
                        stages[i],
                        trees[i],
                        results[i],
                        stages[i + 1],
                    )
            },
{
    let stages = lemma_stages(before, trees, results, after);
    assert(stages.first() == before);
    assert(stages.last() == after);
}

/// The transaction that executes, where there is one, is taken as it stands. A transaction
/// may be ended where each tree that it holds is held in its name, and one whose trees have
/// been written elsewhere when all of them are given back, in whatever order.
pub proof fn law_what_may_be_ended(
    executing: ExecutingTransaction,
    roots: RootsModel,
    hold: HoldModel,
    handed: Seq<TransactionTreeModel>,
    trees: Seq<TransactionTree>,
)
    ensures
        transaction::model_of(None) is None,
        transaction::model_of(Some(&executing)) == Some(executing@),
        (forall|i: int|
            0 <= i < hold.names.len() ==> {
                &&& roots.locks.contains_key(#[trigger] hold.names[i])
                &&& roots.locks[hold.names[i]] == hold.id
            }) ==> roots.holds_all(hold),
        pool::all_trees(trees).to_multiset() == pool::noted_as(handed, true).to_multiset()
            ==> pool::are_written(handed, trees),
{
    if forall|i: int|
        0 <= i < hold.names.len() ==> {
            &&& roots.locks.contains_key(#[trigger] hold.names[i])
            &&& roots.locks[hold.names[i]] == hold.id
        } {
        assert forall|name: Seq<char>| #[trigger]
            hold.names.contains(name) implies roots.locks.contains_key(name) && roots.locks[name]
            == hold.id by {
            let i = hold.names.index_of(name);
            assert(roots.locks.contains_key(hold.names[i]));
        }
    }
}

/// What is repeated is an attempt whose file was compacted, and nothing else: the answer is
/// that of the first attempt that met no compaction.
pub proof fn law_attempts_are_repeated_after_compaction<R, F: Fn(u64) -> Result<R, Error>>(
    func: F,
    result: Result<R, Error>,
)
    requires
        !retry::compacted(result),
        retry::first_settled(func, result),
    ensures
        result matches Err(error) ==> !(error.kind is TreeCompacted),
        exists|n: u64|
            {
                &&& #[trigger] call_ensures(func, (n,), result)
                &&& forall|m: u64| m < n ==> #[trigger] met_compaction(func, m)
            },
{
    let n = choose|n: u64|
        {
            &&& #[trigger] call_ensures(func, (n,), result)
            &&& forall|m: u64| m < n ==> #[trigger] retry::may_repeat(func, m)
        };
    assert forall|m: u64| m < n implies #[trigger] met_compaction(func, m) by {
        assert(retry::may_repeat(func, m));
    }
    assert(call_ensures(func, (n,), result));
}

/// Attempt `n`, which the caller's own code may abort, may have met a compaction.
pub open spec fn met_compaction_abortable<R, E, F: Fn(u64) -> Result<R, AbortError<E>>>(
    func: F,
    n: u64,
) -> bool {
    exists|answer: Result<R, AbortError<E>>|
        {
            &&& #[trigger] call_ensures(func, (n,), answer)
            &&& answer matches Err(AbortError::Nebari(error)) && error.kind is TreeCompacted
        }
}

/// As [`law_attempts_are_repeated_after_compaction`], for attempts that the caller's own
/// code may abort: an error of the caller is never a reason to try again.
pub proof fn law_abortable_attempts_are_repeated_after_compaction<
    R,
    E,
    F: Fn(u64) -> Result<R, AbortError<E>>,
>(func: F, result: Result<R, AbortError<E>>)
    requires
        !retry::compacted_abortable(result),
        retry::first_settled_abortable(func, result),
    ensures
        result matches Err(AbortError::Nebari(error)) ==> !(error.kind is TreeCompacted),
        exists|n: u64|
            {
                &&& #[trigger] call_ensures(func, (n,), result)
                &&& forall|m: u64| m < n ==> #[trigger] met_compaction_abortable(func, m)
            },
{
    let n = choose|n: u64|
        {
            &&& #[trigger] call_ensures(func, (n,), result)
            &&& forall|m: u64| m < n ==> #[trigger] retry::may_repeat_abortable(func, m)
        };
    assert forall|m: u64| m < n implies #[trigger] met_compaction_abortable(func, m) by {
        assert(retry::may_repeat_abortable(func, m));
    }
    assert(call_ensures(func, (n,), result));
}

} // verus!
