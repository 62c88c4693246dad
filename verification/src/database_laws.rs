//! What holds of the database as a whole.

use vstd::prelude::*;
use crate::database::{Ending, Reading, Refusal, RootsModel, SlotModel};
use crate::model::TreeModel;
use crate::pool;
use crate::pool::PoolModel;
use crate::roots;
use crate::storage;
use crate::storage::{Context, StorageModel};
use crate::transaction::TransactionModel;
use crate::transaction_tree::TransactionTreeModel;
use crate::tree::{RootModel, Vault};

verus! {

// ---- Transactions ----

/// The trees have different names, and each was opened from the file that its name
/// stands for in `roots`.
pub open spec fn held_apart(roots: RootsModel, trees: Seq<TransactionTreeModel>) -> bool {
    &&& forall|i: int, j: int|
        0 <= i < j < trees.len() ==> (#[trigger] trees[i]).name != (#[trigger] trees[j]).name
    &&& forall|i: int| 0 <= i < trees.len() ==> roots.holds(#[trigger] trees[i])
}

/// `transaction` is what has become of a transaction that began as `begun`: its trees
/// have been changed, and data may have been attached to its entry.
pub open spec fn went_on(begun: TransactionModel, transaction: TransactionModel) -> bool {
    &&& transaction.hold == begun.hold
    &&& transaction.entry.id == begun.entry.id
    &&& transaction.entry.trees == begun.entry.trees
    &&& transaction.trees.len() == begun.trees.len()
    &&& forall|i: int|
        0 <= i < begun.trees.len() ==> {
            &&& #[trigger] transaction.trees[i] == begun.trees[i].changed(
                transaction.trees[i].pending,
            )
            &&& transaction.trees[i].pending.versioned == begun.trees[i].published.versioned
        }
}

/// What the end of a transaction does to the database, tree by tree.
proof fn lemma_all_ended(
    roots: RootsModel,
    trees: Seq<TransactionTreeModel>,
    ending: Ending,
    n: nat,
    name: Seq<char>,
)
    requires
        n <= trees.len(),
        held_apart(roots, trees),
    ensures
        ({
            let after = roots.all_ended(trees, ending, n);
            &&& after == RootsModel { trees: after.trees, ..roots }
            &&& after.trees.contains_key(name) == roots.trees.contains_key(name)
            &&& forall|i: int|
                0 <= i < n && (#[trigger] trees[i]).name == name ==> after.trees[name]
                    == roots.trees[name].ended(trees[i], ending)
            &&& (forall|i: int| 0 <= i < n ==> (#[trigger] trees[i]).name != name)
                ==> after.trees[name] == roots.trees[name]
        }),
    decreases n,
{
    if n > 0 {
        let before = roots.all_ended(trees, ending, (n - 1) as nat);
        lemma_all_ended(roots, trees, ending, (n - 1) as nat, name);
        lemma_all_ended(roots, trees, ending, (n - 1) as nat, trees[n - 1].name);
        assert(before.trees[trees[n - 1].name] == roots.trees[trees[n - 1].name]);
        assert(roots.holds(trees[n - 1]));
    }
}

/// What the end of a transaction does to anything but the trees.
pub proof fn lemma_all_ended_rest(
    roots: RootsModel,
    trees: Seq<TransactionTreeModel>,
    ending: Ending,
    n: nat,
)
    ensures
        ({
            let after = roots.all_ended(trees, ending, n);
            after == RootsModel { trees: after.trees, ..roots }
        }),
    decreases n,
{
    if n > 0 {
        lemma_all_ended_rest(roots, trees, ending, (n - 1) as nat);
    }
}

/// What the begin of a transaction does to the tree named `name`.
pub proof fn lemma_begun(roots: RootsModel, trees: Seq<RootModel>, name: Seq<char>)
    ensures
        ({
            let named = RootsModel::named(trees, trees.len() as int, name);
            let after = roots.begun(trees);
            &&& after.trees.contains_key(name) == (roots.trees.contains_key(name) || named)
            &&& roots.trees.contains_key(name) && (roots.trees[name].sealed is Some || !named)
                ==> after.trees[name] == roots.trees[name]
            &&& after.holds_lock(name) == (roots.holds_lock(name) || named)
            &&& named ==> after.locks[name] == roots.next_transaction
            &&& !named && roots.holds_lock(name) ==> after.locks[name] == roots.locks[name]
            &&& after.trees == roots.prepared(trees, trees.len()).trees
            &&& after.context == roots.context
            &&& after.log == roots.log
        }),
{
    let start = roots.numbered();
    start.lemma_with_kinds(trees, trees.len());
    start.with_kinds(trees, trees.len()).lemma_with_files(trees, trees.len(), name);
}

/// What a transaction finds of a tree that it asks for.
pub proof fn lemma_begun_at(roots: RootsModel, trees: Seq<RootModel>, i: int)
    requires
        0 <= i < trees.len(),
        !roots.blocked(trees),
    ensures
        ({
            let after = roots.begun(trees);
            let name = trees[i].name;
            &&& after.trees.contains_key(name)
            &&& roots.trees.contains_key(name) && (roots.trees[name].sealed is Some
                || roots.trees[name].versioned == trees[i].versioned) ==> after.trees[name]
                == roots.trees[name]
            &&& !roots.trees.contains_key(name) || (roots.trees[name].sealed is None
                && roots.trees[name].versioned != trees[i].versioned) ==> exists|file_id: u64|
                after.trees[name] == #[trigger] SlotModel::fresh(trees[i].versioned, file_id)
        }),
{
    let asked = roots.numbered().with_kinds(trees, trees.len());
    lemma_begun(roots, trees, trees[i].name);
    roots.numbered().lemma_with_kinds(trees, trees.len());
    roots::lemma_apart(roots, trees);
    asked.lemma_file_at(trees, i, trees.len());
    let before = asked.with_files(trees, i as nat);
    asked.lemma_with_files(trees, i as nat, trees[i].name);
    let name = trees[i].name;
    if !roots.trees.contains_key(name) {
        assert(before.with_file(trees[i]).trees[name] == SlotModel::fresh(
            trees[i].versioned,
            before.next_file,
        ));
    } else if roots.trees[name].sealed is None && roots.trees[name].versioned
        != trees[i].versioned {
        assert(before.with_file(trees[i]).trees[name] == SlotModel::fresh(
            trees[i].versioned,
            roots.trees[name].file_id,
        ));
    }
}

/// A transaction begins with trees of its own: their names differ, and each was
/// opened from the file that its name stands for.
pub proof fn law_begun_trees_held(roots: RootsModel, trees: Seq<RootModel>)
    requires
        roots.consistent(),
        !roots.blocked(trees),
    ensures
        held_apart(roots.begun(trees), roots.transaction_over(trees).trees),
{
    let opened = roots.transaction_over(trees).trees;
    assert forall|i: int, j: int| 0 <= i < j < opened.len() implies (#[trigger] opened[i]).name
        != (#[trigger] opened[j]).name by {
        assert(trees[i].name != trees[j].name);
    }
    assert forall|i: int| 0 <= i < opened.len() implies roots.begun(trees).holds(
        #[trigger] opened[i],
    ) by {
        lemma_begun(roots, trees, trees[i].name);
        lemma_begun_at(roots, trees, i);
    }
}

/// Two readings show the same, but that a tree without keys may have been made in
/// between.
pub open spec fn alike(before: Reading, after: Reading) -> bool {
    ||| before == after
    ||| match after {
        Reading::Seen(made) => {
            &&& made == TreeModel::empty(made.versioned)
            &&& match before {
                Reading::Missing => true,
                Reading::Refused(_) => false,
                Reading::Seen(tree) => tree == TreeModel::empty(tree.versioned),
            }
        },
        _ => false,
    }
}

/// Beginning a transaction changes nothing for readers: a tree that was written is read
/// as before, and one that was not is still without keys.
pub proof fn law_begin_unseen(roots: RootsModel, trees: Seq<RootModel>, reader: RootModel)
    requires
        roots.consistent(),
        !roots.blocked(trees),
    ensures
        alike(roots.read(reader), roots.begun(trees).read(reader)),
        roots.trees.contains_key(reader.name) && roots.trees[reader.name].sealed is Some
            ==> roots.begun(trees).read(reader) == roots.read(reader),
{
    lemma_begun(roots, trees, reader.name);
    if RootsModel::named(trees, trees.len() as int, reader.name) {
        let i = choose|i: int| 0 <= i < trees.len() && (#[trigger] trees[i]).name == reader.name;
        lemma_begun_at(roots, trees, i);
    }
}

/// All trees of a transaction are its own: right after it has begun it holds each of
/// them.
pub proof fn law_begin_locks(roots: RootsModel, trees: Seq<RootModel>, i: int)
    requires
        0 <= i < trees.len(),
    ensures
        ({
            let hold = roots.transaction_over(trees).hold;
            let name = trees[i].name;
            &&& roots.begun(trees).holds_lock(name)
            &&& roots.begun(trees).locks[name] == hold.id
            &&& hold.names.contains(name)
        }),
{
    lemma_begun(roots, trees, trees[i].name);
    assert(trees[i].name == trees[i].name);
    assert(roots.transaction_over(trees).hold.names[i] == trees[i].name);
}

/// While a tree is held, no transaction over it can begin.
pub proof fn law_held_trees_are_exclusive(roots: RootsModel, trees: Seq<RootModel>, i: int)
    requires
        0 <= i < trees.len(),
        roots.holds_lock(trees[i].name),
    ensures
        roots.blocked(trees),
        !roots.admits(trees[i]),
{
}

/// `after` holds `name` as `before` does.
pub open spec fn same_lock(before: RootsModel, after: RootsModel, name: Seq<char>) -> bool {
    after.holds_lock(name) && after.locks[name] == before.locks[name]
}

/// A tree that a transaction holds stays held until that transaction ends: whatever else
/// is done, even if the tree is deleted, made again or compacted.
pub proof fn law_lock_is_kept(
    roots: RootsModel,
    name: Seq<char>,
    root: RootModel,
    tree: TreeModel,
    trees: Seq<RootModel>,
    n: nat,
    other: TransactionModel,
)
    requires
        roots.holds_lock(name),
        n <= trees.len(),
        !trees_named(trees, name),
        !(other.hold.names.contains(name) && other.hold.id == roots.locks[name]),
    ensures
        same_lock(roots, roots.deleted(root.name), name),
        same_lock(roots, roots.with_tree(root), name),
        same_lock(roots, roots.numbered().with_kind(root), name),
        same_lock(roots, roots.compacted(root.name), name),
        same_lock(roots, roots.applied(root, tree), name),
        same_lock(roots, roots.unapplied(root, tree), name),
        same_lock(roots, roots.abandoned(root), name),
        same_lock(roots, roots.prepared(trees, n), name),
        same_lock(roots, roots.begun(trees), name),
        same_lock(roots, roots.committed(other), name),
        same_lock(roots, roots.uncommitted(other), name),
        same_lock(roots, roots.rolled_back(other), name),
{
    lemma_begun(roots, trees, name);
    let start = roots.numbered();
    start.lemma_with_kinds(trees, trees.len());
    start.with_kinds(trees, trees.len()).lemma_with_files(trees, n, name);
    let count = other.trees.len();
    lemma_all_ended_rest(roots.logged(other.entry), other.trees, Ending::Published, count);
    lemma_all_ended_rest(roots, other.trees, Ending::Kept, count);
    lemma_all_ended_rest(roots, other.trees, Ending::RolledBack, count);
}

/// `name` is among `trees`.
pub open spec fn trees_named(trees: Seq<RootModel>, name: Seq<char>) -> bool {
    RootsModel::named(trees, trees.len() as int, name)
}

/// Once a transaction has ended, in whatever way, it holds nothing any more, even of
/// trees that were deleted in the meantime.
pub proof fn law_end_releases(roots: RootsModel, transaction: TransactionModel, name: Seq<char>)
    requires
        transaction.hold.names.contains(name),
        roots.holds_lock(name) ==> roots.locks[name] == transaction.hold.id,
    ensures
        !roots.committed(transaction).holds_lock(name),
        !roots.uncommitted(transaction).holds_lock(name),
        !roots.rolled_back(transaction).holds_lock(name),
{
    let count = transaction.trees.len();
    let logged = roots.logged(transaction.entry);
    lemma_all_ended_rest(logged, transaction.trees, Ending::Published, count);
    lemma_all_ended_rest(roots, transaction.trees, Ending::Kept, count);
    lemma_all_ended_rest(roots, transaction.trees, Ending::RolledBack, count);
}

/// `transaction` is as it was begun in `roots`: it holds its trees, each was opened from
/// the file that its name stands for, and that name was asked for as a tree of its kind.
pub open spec fn in_hand(roots: RootsModel, transaction: TransactionModel) -> bool {
    &&& held_apart(roots, transaction.trees)
    &&& roots.holds_all(transaction.hold)
    &&& forall|i: int|
        0 <= i < transaction.trees.len() ==> {
            let tree = #[trigger] transaction.trees[i];
            &&& transaction.hold.names.contains(tree.name)
            &&& roots.kinds.contains_key(tree.name)
            &&& roots.kinds[tree.name] == tree.published.versioned
        }
}

/// Whatever happens to the other trees, `after` keeps what `transaction` needs.
proof fn lemma_in_hand(before: RootsModel, after: RootsModel, transaction: TransactionModel)
    requires
        in_hand(before, transaction),
        forall|name: Seq<char>| #[trigger]
            transaction.hold.names.contains(name) ==> {
                &&& same_lock(before, after, name)
                &&& before.trees.contains_key(name) ==> {
                    &&& after.trees.contains_key(name)
                    &&& after.trees[name].file_id == before.trees[name].file_id
                    &&& after.trees[name].versioned == before.trees[name].versioned
                }
                &&& before.kinds.contains_key(name) ==> {
                    &&& after.kinds.contains_key(name)
                    &&& after.kinds[name] == before.kinds[name]
                }
            },
    ensures
        in_hand(after, transaction),
{
    assert forall|i: int| 0 <= i < transaction.trees.len() implies after.holds(
        #[trigger] transaction.trees[i],
    ) by {
        assert(before.holds(transaction.trees[i]));
        assert(transaction.hold.names.contains(transaction.trees[i].name));
    }
}

/// A tree that was asked for stays the tree that was asked for.
pub proof fn lemma_kinds_kept(roots: RootsModel, trees: Seq<RootModel>, n: nat, name: Seq<char>)
    requires
        n <= trees.len(),
        roots.kinds.contains_key(name),
    ensures
        roots.with_kinds(trees, n).kinds.contains_key(name),
        roots.with_kinds(trees, n).kinds[name] == roots.kinds[name],
    decreases n,
{
    if n > 0 {
        lemma_kinds_kept(roots, trees, (n - 1) as nat, name);
    }
}

/// The trees of a transaction that was asked for are noted as they were asked for.
pub proof fn lemma_kinds_noted(roots: RootsModel, trees: Seq<RootModel>, n: nat, i: int)
    requires
        0 <= i < n <= trees.len(),
        roots.agrees(trees[i]),
        forall|a: int, b: int|
            0 <= a < b < trees.len() ==> (#[trigger] trees[a]).name != (#[trigger] trees[b]).name,
    ensures
        roots.with_kinds(trees, n).kinds.contains_key(trees[i].name),
        roots.with_kinds(trees, n).kinds[trees[i].name] == trees[i].versioned,
    decreases n,
{
    if n == i + 1 {
        lemma_kinds_untouched(roots, trees, i as nat, trees[i].name);
    } else {
        lemma_kinds_noted(roots, trees, (n - 1) as nat, i);
    }
}

pub proof fn lemma_kinds_untouched(
    roots: RootsModel,
    trees: Seq<RootModel>,
    n: nat,
    name: Seq<char>,
)
    requires
        n <= trees.len(),
        forall|i: int| 0 <= i < n ==> (#[trigger] trees[i]).name != name,
    ensures
        roots.with_kinds(trees, n).kinds.contains_key(name) == roots.kinds.contains_key(name),
        roots.kinds.contains_key(name) ==> roots.with_kinds(trees, n).kinds[name]
            == roots.kinds[name],
    decreases n,
{
    if n > 0 {
        lemma_kinds_untouched(roots, trees, (n - 1) as nat, name);
    }
}

/// A transaction that has begun, and that has been worked with since, is in hand.
pub proof fn law_begun_is_in_hand(
    roots: RootsModel,
    trees: Seq<RootModel>,
    transaction: TransactionModel,
)
    requires
        roots.consistent(),
        !roots.blocked(trees),
        forall|k: int| 0 <= k < trees.len() ==> roots.refusal(#[trigger] trees[k]) is None,
        forall|k: int| 0 <= k < trees.len() ==> roots.agrees(#[trigger] trees[k]),
        went_on(roots.transaction_over(trees), transaction),
    ensures
        in_hand(roots.begun(trees), transaction),
{
    let after = roots.begun(trees);
    let begun = roots.transaction_over(trees);
    lemma_went_on(roots, trees, transaction);
    roots::lemma_apart(roots, trees);
    assert forall|name: Seq<char>| #[trigger] transaction.hold.names.contains(name) implies
        after.locks.contains_key(name) && after.locks[name] == transaction.hold.id by {
        let i = transaction.hold.names.index_of(name);
        assert(begun.hold.names[i] == trees[i].name);
        law_begin_locks(roots, trees, i);
    }
    assert forall|i: int| 0 <= i < transaction.trees.len() implies {
        let tree = #[trigger] transaction.trees[i];
        &&& transaction.hold.names.contains(tree.name)
        &&& after.kinds.contains_key(tree.name)
        &&& after.kinds[tree.name] == tree.published.versioned
    } by {
        law_begin_locks(roots, trees, i);
        assert(roots.agrees(trees[i]));
        assert(roots.refusal(trees[i]) is None);
        let start = roots.numbered();
        assert(start.agrees(trees[i]));
        lemma_kinds_noted(start, trees, trees.len(), i);
        let asked = start.with_kinds(trees, trees.len());
        asked.lemma_with_files(trees, trees.len(), trees[i].name);
        lemma_begun(roots, trees, trees[i].name);
        lemma_begun_at(roots, trees, i);
        assert(transaction.trees[i] == begun.trees[i].changed(transaction.trees[i].pending));
    }
}

/// A transaction stays in hand until it ends or one of its trees is deleted, whatever
/// else is done in the meantime: trees are asked for, made, changed, compacted or deleted,
/// and other transactions begin, are refused or end.
pub proof fn law_transaction_stays_in_hand(
    roots: RootsModel,
    transaction: TransactionModel,
    root: RootModel,
    tree: TreeModel,
    trees: Seq<RootModel>,
    n: nat,
    other: TransactionModel,
)
    requires
        in_hand(roots, transaction),
        n <= trees.len(),
    ensures
        roots.agrees(root) ==> {
            &&& in_hand(roots.with_tree(root), transaction)
            &&& in_hand(roots.numbered().with_kind(root), transaction)
        },
        !transaction.hold.names.contains(root.name) ==> in_hand(
            roots.deleted(root.name),
            transaction,
        ),
        roots.trees.contains_key(root.name) && !roots.holds_lock(root.name) ==> in_hand(
            roots.compacted(root.name),
            transaction,
        ),
        roots.agrees(root) && roots.admits(root) ==> {
            &&& in_hand(roots.applied(root, tree), transaction)
            &&& in_hand(roots.unapplied(root, tree), transaction)
            &&& in_hand(roots.abandoned(root), transaction)
        },
        !roots.blocked(trees) ==> {
            &&& in_hand(roots.prepared(trees, n), transaction)
            &&& in_hand(roots.begun(trees), transaction)
        },
        in_hand(roots, other) && other.hold.id != transaction.hold.id ==> {
            &&& in_hand(roots.committed(other), transaction)
            &&& in_hand(roots.uncommitted(other), transaction)
            &&& in_hand(roots.rolled_back(other), transaction)
        },
{
    let names = transaction.hold.names;
    assert forall|name: Seq<char>| #[trigger] names.contains(name) implies roots.locks.contains_key(
        name,
    ) && roots.locks[name] == transaction.hold.id by {}
    if roots.agrees(root) {
        lemma_asked_in_hand(roots, transaction, root);
        lemma_in_hand(roots, roots.numbered().with_kind(root), transaction);
    }
    if !names.contains(root.name) {
        lemma_in_hand(roots, roots.deleted(root.name), transaction);
    }
    if roots.trees.contains_key(root.name) && !roots.holds_lock(root.name) {
        lemma_in_hand(roots, roots.compacted(root.name), transaction);
    }
    if roots.agrees(root) && roots.admits(root) {
        lemma_in_hand(roots, roots.applied(root, tree), transaction);
        lemma_in_hand(roots, roots.unapplied(root, tree), transaction);
        lemma_in_hand(roots, roots.abandoned(root), transaction);
    }
    if !roots.blocked(trees) {
        lemma_prepared_in_hand(roots, transaction, trees, n);
        lemma_prepared_in_hand(roots, transaction, trees, trees.len());
        let made = roots.prepared(trees, trees.len());
        assert forall|name: Seq<char>| #[trigger] names.contains(name) implies same_lock(
            made,
            roots.begun(trees),
            name,
        ) by {
            lemma_free(roots, trees, name);
        }
        lemma_in_hand(made, roots.begun(trees), transaction);
    }
    if in_hand(roots, other) && other.hold.id != transaction.hold.id {
        lemma_other_end_in_hand(roots, transaction, other);
    }
}

/// Asking for a tree as what it is leaves a transaction in hand.
proof fn lemma_asked_in_hand(roots: RootsModel, transaction: TransactionModel, root: RootModel)
    requires
        in_hand(roots, transaction),
        roots.agrees(root),
    ensures
        in_hand(roots.with_tree(root), transaction),
{
    let after = roots.with_tree(root);
    assert forall|i: int| 0 <= i < transaction.trees.len() implies after.holds(
        #[trigger] transaction.trees[i],
    ) by {
        assert(roots.holds(transaction.trees[i]));
        assert(roots.kinds.contains_key(transaction.trees[i].name));
    }
}

/// A tree that is held is not among those over which a transaction can begin.
proof fn lemma_free(roots: RootsModel, trees: Seq<RootModel>, name: Seq<char>)
    requires
        !roots.blocked(trees),
        roots.holds_lock(name),
    ensures
        forall|k: int| !RootsModel::named(trees, k, name) || k > trees.len(),
{
    assert forall|k: int| !RootsModel::named(trees, k, name) || k > trees.len() by {
        if RootsModel::named(trees, k, name) && k <= trees.len() {
            let i = choose|i: int| 0 <= i < k && (#[trigger] trees[i]).name == name;
            assert(roots.holds_lock(trees[i].name));
        }
    }
}

/// Preparing a transaction over other trees leaves a transaction in hand.
proof fn lemma_prepared_in_hand(
    roots: RootsModel,
    transaction: TransactionModel,
    trees: Seq<RootModel>,
    n: nat,
)
    requires
        in_hand(roots, transaction),
        !roots.blocked(trees),
        n <= trees.len(),
    ensures
        in_hand(roots.prepared(trees, n), transaction),
{
    let start = roots.numbered();
    let asked = start.with_kinds(trees, trees.len());
    start.lemma_with_kinds(trees, trees.len());
    let after = roots.prepared(trees, n);
    assert forall|name: Seq<char>| #[trigger]
        transaction.hold.names.contains(name) implies {
        &&& same_lock(roots, after, name)
        &&& roots.trees.contains_key(name) ==> {
            &&& after.trees.contains_key(name)
            &&& after.trees[name].file_id == roots.trees[name].file_id
            &&& after.trees[name].versioned == roots.trees[name].versioned
        }
        &&& roots.kinds.contains_key(name) ==> {
            &&& after.kinds.contains_key(name)
            &&& after.kinds[name] == roots.kinds[name]
        }
    } by {
        lemma_free(roots, trees, name);
        asked.lemma_with_files(trees, n, name);
        assert(!RootsModel::named(trees, n as int, name));
        if roots.kinds.contains_key(name) {
            lemma_kinds_kept(start, trees, trees.len(), name);
        }
    }
    lemma_in_hand(roots, after, transaction);
}

/// The end of a transaction leaves another in hand.
proof fn lemma_other_end_in_hand(
    roots: RootsModel,
    transaction: TransactionModel,
    other: TransactionModel,
)
    requires
        in_hand(roots, transaction),
        in_hand(roots, other),
        other.hold.id != transaction.hold.id,
    ensures
        in_hand(roots.committed(other), transaction),
        in_hand(roots.uncommitted(other), transaction),
        in_hand(roots.rolled_back(other), transaction),
{
    let count = other.trees.len();
    let logged = roots.logged(other.entry);
    lemma_still_apart(roots, other);
    assert forall|name: Seq<char>| #[trigger]
        transaction.hold.names.contains(name) implies {
        &&& !other.hold.names.contains(name)
        &&& forall|i: int| 0 <= i < count ==> (#[trigger] other.trees[i]).name != name
    } by {
        if other.hold.names.contains(name) {
            assert(roots.locks[name] == other.hold.id);
        }
        assert(roots.locks[name] == transaction.hold.id);
    }
    assert forall|name: Seq<char>| #[trigger]
        transaction.hold.names.contains(name) implies {
        &&& same_lock(roots, roots.committed(other), name)
        &&& same_lock(roots, roots.uncommitted(other), name)
        &&& same_lock(roots, roots.rolled_back(other), name)
        &&& roots.trees.contains_key(name) ==> {
            &&& roots.committed(other).trees.contains_key(name)
            &&& roots.uncommitted(other).trees.contains_key(name)
            &&& roots.rolled_back(other).trees.contains_key(name)
            &&& roots.committed(other).trees[name] == roots.trees[name]
            &&& roots.uncommitted(other).trees[name] == roots.trees[name]
            &&& roots.rolled_back(other).trees[name] == roots.trees[name]
        }
    } by {
        lemma_all_ended(logged, other.trees, Ending::Published, count, name);
        lemma_all_ended(roots, other.trees, Ending::Kept, count, name);
        lemma_all_ended(roots, other.trees, Ending::RolledBack, count, name);
    }
    lemma_all_ended_rest(logged, other.trees, Ending::Published, count);
    lemma_all_ended_rest(roots, other.trees, Ending::Kept, count);
    lemma_all_ended_rest(roots, other.trees, Ending::RolledBack, count);
    lemma_in_hand(roots, roots.committed(other), transaction);
    lemma_in_hand(roots, roots.uncommitted(other), transaction);
    lemma_in_hand(roots, roots.rolled_back(other), transaction);
}

/// A transaction that is in hand is published as a whole when it is committed, whenever
/// that is.
pub proof fn law_commit_in_hand_publishes(
    roots: RootsModel,
    transaction: TransactionModel,
    i: int,
    reader: RootModel,
)
    requires
        in_hand(roots, transaction),
        0 <= i < transaction.trees.len(),
        reader.name == transaction.trees[i].name,
        reader.versioned == transaction.trees[i].published.versioned,
        roots.context.vault_for(reader.vault) == transaction.trees[i].vault,
    ensures
        roots.committed(transaction).read(reader) == Reading::Seen(transaction.trees[i].pending),
        roots.committed(transaction).admits(reader),
{
    assert(transaction.hold.names.contains(transaction.trees[i].name));
    law_commit_publishes(roots, transaction, i, reader);
}

/// Trees in another order are the same trees.
proof fn lemma_reordered(one: Seq<TransactionTreeModel>, other: Seq<TransactionTreeModel>)
    requires
        forall|i: int, j: int|
            0 <= i < j < one.len() ==> (#[trigger] one[i]).name != (#[trigger] one[j]).name,
        other.to_multiset() == one.to_multiset(),
    ensures
        other.len() == one.len(),
        forall|i: int, j: int|
            0 <= i < j < other.len() ==> (#[trigger] other[i]).name != (#[trigger] other[j]).name,
        forall|tree: TransactionTreeModel| one.contains(tree) <==> #[trigger] other.contains(tree),
{
    one.to_multiset_ensures();
    other.to_multiset_ensures();
    one.lemma_multiset_has_no_duplicates();
    other.lemma_multiset_has_no_duplicates_conv();
    assert forall|tree: TransactionTreeModel| one.contains(tree) <==> #[trigger] other.contains(
        tree,
    ) by {
        assert(one.contains(tree) <==> one.to_multiset().count(tree) > 0);
        assert(other.contains(tree) <==> other.to_multiset().count(tree) > 0);
    }
    assert forall|i: int, j: int| 0 <= i < j < other.len() implies (#[trigger] other[i]).name != (
    #[trigger] other[j]).name by {
        assert(other.contains(other[i]) && other.contains(other[j]));
        let a = one.index_of(other[i]);
        let b = one.index_of(other[j]);
        assert(one[a] == other[i] && one[b] == other[j]);
        assert(other[i] != other[j]);
    }
}

/// A transaction ends in the same way in whichever order it ends for its trees.
proof fn lemma_ended_reordered(
    roots: RootsModel,
    one: Seq<TransactionTreeModel>,
    other: Seq<TransactionTreeModel>,
    ending: Ending,
)
    requires
        held_apart(roots, one),
        other.to_multiset() == one.to_multiset(),
    ensures
        roots.all_ended(one, ending, one.len()) == roots.all_ended(other, ending, other.len()),
{
    lemma_reordered(one, other);
    assert forall|i: int| 0 <= i < other.len() implies roots.holds(#[trigger] other[i]) by {
        assert(other.contains(other[i]));
        let k = one.index_of(other[i]);
        assert(roots.holds(one[k]));
    }
    let count = one.len();
    let first = roots.all_ended(one, ending, count);
    let second = roots.all_ended(other, ending, count);
    lemma_all_ended_rest(roots, one, ending, count);
    lemma_all_ended_rest(roots, other, ending, count);
    assert forall|name: Seq<char>| #[trigger] first.trees.contains_key(name)
        == second.trees.contains_key(name) && first.trees[name] == second.trees[name] by {
        lemma_all_ended(roots, one, ending, count, name);
        lemma_all_ended(roots, other, ending, count, name);
        if exists|i: int| 0 <= i < count && (#[trigger] other[i]).name == name {
            let i = choose|i: int| 0 <= i < count && (#[trigger] other[i]).name == name;
            assert(other.contains(other[i]));
            let k = one.index_of(other[i]);
            assert(one[k].name == name);
        } else {
            assert forall|k: int| 0 <= k < count implies (#[trigger] one[k]).name != name by {
                assert(one.contains(one[k]));
                assert(other.contains(one[k]));
                let i = other.index_of(one[k]);
                assert(other[i].name != name);
            }
        }
    }
    assert(first.trees =~= second.trees);
}

/// It makes no difference in which order the trees of a transaction have been written:
/// giving them back in any order publishes what a commit does.
pub proof fn law_order_of_writing_is_unseen(
    roots: RootsModel,
    transaction: TransactionModel,
    written: Seq<TransactionTreeModel>,
)
    requires
        in_hand(roots, transaction),
        written.to_multiset() == pool::noted_as(transaction.trees, true).to_multiset(),
    ensures
        roots.logged(transaction.entry).all_ended(
            written,
            Ending::Published,
            written.len(),
        ).released(transaction.hold) == roots.committed(transaction),
{
    let logged = roots.logged(transaction.entry);
    let trees = transaction.trees;
    let noted = pool::noted_as(trees, true);
    assert forall|i: int| 0 <= i < noted.len() implies logged.holds(#[trigger] noted[i]) by {
        assert(roots.holds(trees[i]));
    }
    assert forall|i: int, j: int| 0 <= i < j < noted.len() implies (#[trigger] noted[i]).name != (
    #[trigger] noted[j]).name by {
        assert(trees[i].name != trees[j].name);
    }
    lemma_ended_reordered(logged, noted, written, Ending::Published);
    roots::lemma_noted_ends_alike(logged, trees, noted, Ending::Published, trees.len());
}

/// A transaction does not stand in the way of another that works on other trees.
pub proof fn law_other_trees_stay_free(
    roots: RootsModel,
    trees: Seq<RootModel>,
    others: Seq<RootModel>,
)
    requires
        !roots.blocked(others),
        forall|i: int, j: int|
            0 <= i < trees.len() && 0 <= j < others.len() ==> (#[trigger] trees[i]).name != (
            #[trigger] others[j]).name,
    ensures
        !roots.begun(trees).blocked(others),
{
    let after = roots.begun(trees);
    assert forall|j: int| 0 <= j < others.len() implies !after.holds_lock(
        (#[trigger] others[j]).name,
    ) by {
        lemma_begun(roots, trees, others[j].name);
        assert(!roots.holds_lock(others[j].name));
        if trees_named(trees, others[j].name) {
            let i = choose|i: int|
                0 <= i < trees.len() && (#[trigger] trees[i]).name == others[j].name;
            assert(trees[i].name != others[j].name);
        }
    }
}

/// Once a transaction has been committed, readers see what it has left of each of its
/// trees, the next transaction starts from there, and it can begin.
pub proof fn law_commit_publishes(
    roots: RootsModel,
    transaction: TransactionModel,
    i: int,
    reader: RootModel,
)
    requires
        held_apart(roots, transaction.trees),
        0 <= i < transaction.trees.len(),
        reader.name == transaction.trees[i].name,
        reader.versioned == transaction.trees[i].published.versioned,
        roots.context.vault_for(reader.vault) == transaction.trees[i].vault,
        transaction.hold.names.contains(reader.name),
        roots.holds_lock(reader.name) ==> roots.locks[reader.name] == transaction.hold.id,
    ensures
        roots.committed(transaction).read(reader) == Reading::Seen(transaction.trees[i].pending),
        roots.committed(transaction).current(reader) == transaction.trees[i].pending,
        roots.committed(transaction).admits(reader),
{
    let start = roots.logged(transaction.entry);
    lemma_still_apart(roots, transaction);
    assert(roots.holds(transaction.trees[i]));
    lemma_all_ended(
        start,
        transaction.trees,
        Ending::Published,
        transaction.trees.len(),
        reader.name,
    );
}

/// An entry of the log makes no difference to the trees.
proof fn lemma_still_apart(roots: RootsModel, transaction: TransactionModel)
    requires
        held_apart(roots, transaction.trees),
    ensures
        held_apart(roots.logged(transaction.entry), transaction.trees),
{
    let start = roots.logged(transaction.entry);
    assert forall|k: int| 0 <= k < transaction.trees.len() implies start.holds(
        #[trigger] transaction.trees[k],
    ) by {
        assert(roots.holds(transaction.trees[k]));
    }
}

/// A commit leaves every tree alone that the transaction does not hold.
pub proof fn law_commit_leaves_others(
    roots: RootsModel,
    transaction: TransactionModel,
    name: Seq<char>,
)
    requires
        held_apart(roots, transaction.trees),
        forall|i: int|
            0 <= i < transaction.trees.len() ==> (#[trigger] transaction.trees[i]).name != name,
    ensures
        ({
            let after = roots.committed(transaction);
            &&& after.context == roots.context
            &&& after.trees.contains_key(name) == roots.trees.contains_key(name)
            &&& roots.trees.contains_key(name) ==> after.trees[name] == roots.trees[name]
        }),
{
    lemma_still_apart(roots, transaction);
    lemma_all_ended(
        roots.logged(transaction.entry),
        transaction.trees,
        Ending::Published,
        transaction.trees.len(),
        name,
    );
}

/// A transaction that has been committed stands in the log, behind those before it.
pub proof fn law_commit_is_logged(roots: RootsModel, transaction: TransactionModel)
    ensures
        ({
            let after = roots.committed(transaction);
            &&& after.log.len() == roots.log.len() + 1
            &&& after.log.drop_last() == roots.log
            &&& after.log.last().entry == transaction.entry
        }),
{
    let start = roots.logged(transaction.entry);
    lemma_all_ended_rest(start, transaction.trees, Ending::Published, transaction.trees.len());
    assert(start.log.drop_last() =~= roots.log);
}

/// What a transaction has changed is not seen by readers if it is rolled back, nor
/// does the next transaction start from it.
pub proof fn law_rollback_restores(
    roots: RootsModel,
    transaction: TransactionModel,
    reader: RootModel,
)
    requires
        held_apart(roots, transaction.trees),
    ensures
        ({
            let after = roots.rolled_back(transaction);
            &&& after.read(reader) == roots.read(reader)
            &&& after.log == roots.log
            &&& forall|i: int|
                0 <= i < transaction.trees.len() && (#[trigger] transaction.trees[i]).name
                    == reader.name ==> after.trees[reader.name].pending
                    == roots.trees[reader.name].published
        }),
{
    lemma_all_ended(
        roots,
        transaction.trees,
        Ending::RolledBack,
        transaction.trees.len(),
        reader.name,
    );
}

/// If a commit fails, readers do not see what the transaction has changed, but the next
/// transaction over its trees starts from it.
pub proof fn law_failed_commit_unseen(
    roots: RootsModel,
    transaction: TransactionModel,
    reader: RootModel,
)
    requires
        held_apart(roots, transaction.trees),
    ensures
        roots.uncommitted(transaction).read(reader) == roots.read(reader),
        roots.uncommitted(transaction).log == roots.log,
        forall|i: int|
            0 <= i < transaction.trees.len() && (#[trigger] transaction.trees[i]).name
                == reader.name ==> roots.uncommitted(transaction).trees[reader.name].pending
                == transaction.trees[i].pending,
{
    lemma_all_ended(roots, transaction.trees, Ending::Kept, transaction.trees.len(), reader.name);
}

/// What holds of a transaction that has gone on since it began.
proof fn lemma_went_on(roots: RootsModel, trees: Seq<RootModel>, transaction: TransactionModel)
    requires
        roots.consistent(),
        !roots.blocked(trees),
        went_on(roots.transaction_over(trees), transaction),
    ensures
        held_apart(roots.begun(trees), transaction.trees),
        forall|i: int|
            0 <= i < trees.len() ==> (#[trigger] transaction.trees[i]).name == trees[i].name,
{
    let begun = roots.transaction_over(trees).trees;
    law_begun_trees_held(roots, trees);
    assert forall|j: int, k: int| 0 <= j < k < trees.len() implies (
    #[trigger] transaction.trees[j]).name != (#[trigger] transaction.trees[k]).name by {
        assert(begun[j].name != begun[k].name);
    }
    assert forall|k: int| 0 <= k < trees.len() implies roots.begun(trees).holds(
        #[trigger] transaction.trees[k],
    ) by {
        assert(roots.begun(trees).holds(begun[k]));
    }
    assert forall|i: int| 0 <= i < trees.len() implies (#[trigger] transaction.trees[i]).name
        == trees[i].name by {
        assert(begun[i].name == trees[i].name);
    }
}

/// From its begin to its commit a transaction is unseen; then readers see all of it.
pub proof fn law_transaction_is_isolated(
    roots: RootsModel,
    trees: Seq<RootModel>,
    transaction: TransactionModel,
    i: int,
)
    requires
        roots.consistent(),
        !roots.blocked(trees),
        forall|k: int| 0 <= k < trees.len() ==> roots.refusal(#[trigger] trees[k]) is None,
        went_on(roots.transaction_over(trees), transaction),
        0 <= i < trees.len(),
    ensures
        alike(roots.read(trees[i]), roots.begun(trees).read(trees[i])),
        roots.begun(trees).committed(transaction).read(trees[i]) == Reading::Seen(
            transaction.trees[i].pending,
        ),
        roots.begun(trees).committed(transaction).admits(trees[i]),
{
    let begun = roots.transaction_over(trees).trees;
    law_begin_unseen(roots, trees, trees[i]);
    law_begin_locks(roots, trees, i);
    lemma_went_on(roots, trees, transaction);
    lemma_begun(roots, trees, trees[i].name);
    lemma_begun_at(roots, trees, i);
    assert(roots.refusal(trees[i]) is None);
    assert(transaction.trees[i] == begun[i].changed(transaction.trees[i].pending));
    roots.numbered().lemma_with_kinds(trees, trees.len());
    roots.numbered().with_kinds(trees, trees.len()).lemma_with_files(
        trees,
        trees.len(),
        trees[i].name,
    );
    law_commit_publishes(roots.begun(trees), transaction, i, trees[i]);
}

/// While a transaction executes, its trees are counted with what it has changed.
pub proof fn law_executing_changes_count(
    roots: RootsModel,
    transaction: TransactionModel,
    i: int,
)
    requires
        held_apart(roots, transaction.trees),
        0 <= i < transaction.trees.len(),
    ensures
        roots.latest(transaction.trees[i].name, Some(transaction)) == Some(
            transaction.trees[i].pending,
        ),
{
    assert(roots.holds(transaction.trees[i]));
    lemma_found(transaction, i, transaction.trees.len());
}

proof fn lemma_found(transaction: TransactionModel, i: int, n: nat)
    requires
        0 <= i < transaction.trees.len(),
        n <= transaction.trees.len(),
        forall|j: int, k: int|
            0 <= j < k < transaction.trees.len() ==> (#[trigger] transaction.trees[j]).name != (
            #[trigger] transaction.trees[k]).name,
    ensures
        transaction.named_before(transaction.trees[i].name, n) == if i < n {
            Some(transaction.trees[i])
        } else {
            None
        },
    decreases n,
{
    if n > 0 {
        lemma_found(transaction, i, (n - 1) as nat);
        if n - 1 < i {
            assert(transaction.trees[n - 1].name != transaction.trees[i].name);
        } else if i < n - 1 {
            assert(transaction.trees[i].name != transaction.trees[n - 1].name);
        }
    }
}

/// A transaction that is rolled back leaves no trace for readers or for the next
/// transaction over its trees: that one starts from what was published before, or from
/// an empty tree where there was none.
pub proof fn law_transaction_rolls_back(
    roots: RootsModel,
    trees: Seq<RootModel>,
    transaction: TransactionModel,
    i: int,
)
    requires
        roots.consistent(),
        !roots.blocked(trees),
        forall|k: int| 0 <= k < trees.len() ==> roots.refusal(#[trigger] trees[k]) is None,
        went_on(roots.transaction_over(trees), transaction),
        0 <= i < trees.len(),
    ensures
        ({
            let after = roots.begun(trees).rolled_back(transaction);
            &&& alike(roots.read(trees[i]), after.read(trees[i]))
            &&& after.current(trees[i]) == match roots.read(trees[i]) {
                Reading::Seen(tree) => if tree.versioned == trees[i].versioned {
                    tree
                } else {
                    TreeModel::empty(trees[i].versioned)
                },
                _ => TreeModel::empty(trees[i].versioned),
            }
            &&& after.admits(trees[i])
        }),
{
    law_begin_unseen(roots, trees, trees[i]);
    law_begin_locks(roots, trees, i);
    lemma_went_on(roots, trees, transaction);
    lemma_begun(roots, trees, trees[i].name);
    lemma_begun_at(roots, trees, i);
    assert(roots.refusal(trees[i]) is None);
    assert(transaction.trees[i].name == trees[i].name);
    law_rollback_restores(roots.begun(trees), transaction, trees[i]);
    law_end_releases(roots.begun(trees), transaction, trees[i].name);
    lemma_all_ended(
        roots.begun(trees),
        transaction.trees,
        Ending::RolledBack,
        trees.len(),
        trees[i].name,
    );
}

// ---- Changes of their own ----

/// What a change has left of a tree is what readers see of it, what the next change
/// starts from, and what the tree is counted by.
pub proof fn law_change_is_read(roots: RootsModel, root: RootModel, tree: TreeModel)
    requires
        roots.admits(root),
    ensures
        roots.applied(root, tree).read(root) == Reading::Seen(tree),
        roots.applied(root, tree).current(root) == tree,
        roots.applied(root, tree).latest(root.name, None) == Some(tree),
        roots.applied(root, tree).admits(root),
{
}

/// A key that has been set in a tree is read with its new value.
pub proof fn law_set_then_get(roots: RootsModel, root: RootModel, key: Seq<u8>, value: Seq<u8>)
    requires
        roots.admits(root),
    ensures
        roots.applied(root, roots.current(root).set(key, value)).read(root) matches Reading::Seen(
            tree,
        ) && tree.value_of(key) == Some(value),
{
}

/// A key that has been removed from a tree is not found.
pub proof fn law_remove_then_get(roots: RootsModel, root: RootModel, key: Seq<u8>)
    requires
        roots.admits(root),
    ensures
        roots.applied(root, roots.current(root).remove(key)).read(root) matches Reading::Seen(
            tree,
        ) && tree.value_of(key) is None,
{
}

/// A change to one tree leaves the others alone.
pub proof fn law_change_leaves_others(
    roots: RootsModel,
    root: RootModel,
    tree: TreeModel,
    reader: RootModel,
)
    requires
        reader.name != root.name,
    ensures
        roots.applied(root, tree).read(reader) == roots.read(reader),
        roots.applied(root, tree).latest(reader.name, None) == roots.latest(reader.name, None),
{
}

/// In a versioned tree the change that a key names is read back with the value that the
/// key holds, whatever the vault of the tree.
pub proof fn law_value_is_read_by_sequence(roots: RootsModel, root: RootModel, key: Seq<u8>)
    requires
        roots.consistent(),
        root.versioned,
        roots.read(root) is Seen,
        roots.read(root)->Seen_0.contents.contains_key(key),
    ensures
        ({
            let tree = roots.read(root)->Seen_0;
            tree.index_of(key)->0.sequence_id matches Some(id) && {
                &&& tree.has_change(id as int)
                &&& tree.changes[id - 1].key == key
                &&& tree.changes[id - 1].value == tree.value_of(key)
            }
        }),
{
}

/// A swap that finds another value leaves no trace for readers.
pub proof fn law_abandoned_change_unseen(roots: RootsModel, root: RootModel, reader: RootModel)
    requires
        roots.consistent(),
    ensures
        alike(roots.read(reader), roots.abandoned(root).read(reader)),
        roots.abandoned(root).log == roots.log,
{
}

// ---- Files ----

/// Compacting a tree changes nothing of what it holds.
pub proof fn law_compaction_keeps(roots: RootsModel, name: Seq<char>, reader: RootModel)
    requires
        roots.trees.contains_key(name),
    ensures
        roots.compacted(name).read(reader) == roots.read(reader),
        roots.compacted(name).latest(reader.name, None) == roots.latest(reader.name, None),
        roots.compacted(name).holds_lock(reader.name) == roots.holds_lock(reader.name),
{
}

/// A reader who opened the file of a tree before it was compacted holds a file that the
/// name no longer stands for, as long as the numbers of files have not run round.
pub proof fn law_compaction_noticed(roots: RootsModel, name: Seq<char>)
    requires
        roots.trees.contains_key(name),
        roots.trees[name].file_id != roots.next_file,
    ensures
        roots.compacted(name).trees[name].file_id != roots.trees[name].file_id,
{
}

/// A tree that has been deleted is not there, and the others are as they were.
pub proof fn law_deleted_tree_is_missing(roots: RootsModel, name: Seq<char>, reader: RootModel)
    ensures
        ({
            let after = roots.deleted(name);
            &&& reader.name == name ==> after.read(reader) == Reading::Missing
            &&& reader.name == name ==> after.latest(name, None) is None
            &&& reader.name != name ==> after.read(reader) == roots.read(reader)
        }),
{
}

/// A database that is opened again under its vault holds what readers saw when it was
/// closed. Nothing is locked, and transactions that were executing are lost.
pub proof fn law_reopened_is_the_same(
    roots: RootsModel,
    path: Seq<char>,
    context: Context,
    pool: PoolModel,
    reader: RootModel,
)
    requires
        roots.consistent(),
        roots.readable(),
        context.vault == roots.context.vault,
    ensures
        ({
            let again = RootsModel::opened_on(path, context, roots.storage(), pool);
            &&& again.read(reader) == roots.read(reader)
            &&& again.agrees(reader)
            &&& !again.holds_lock(reader.name)
            &&& again.log == roots.log
        }),
{
    let again = RootsModel::opened_on(path, context, roots.storage(), pool);
    if roots.trees.contains_key(reader.name) {
        assert(roots.storage().trees.contains_key(reader.name));
        assert(again.trees.contains_key(reader.name));
    }
}

/// What was written under one vault is not seen under another.
pub proof fn law_other_vault_is_refused(
    roots: RootsModel,
    root: RootModel,
    tree: TreeModel,
    reader: RootModel,
)
    requires
        reader.name == root.name,
        roots.context.vault_for(reader.vault) != roots.context.vault_for(root.vault),
    ensures
        roots.applied(root, tree).read(reader) == Reading::Refused(Refusal::Vault),
        !roots.applied(root, tree).admits(reader),
{
}

/// What was written as a tree of one kind is not seen as one of the other.
pub proof fn law_other_kind_is_refused(
    roots: RootsModel,
    root: RootModel,
    tree: TreeModel,
    reader: RootModel,
)
    requires
        roots.admits(root),
        reader.name == root.name,
        reader.versioned != root.versioned,
        roots.context.vault_for(reader.vault) == roots.context.vault_for(root.vault),
    ensures
        roots.applied(root, tree).read(reader) == Reading::Refused(Refusal::Kind),
        !roots.applied(root, tree).admits(reader),
{
}

/// A database that is opened under a vault that its log was not written under shows
/// none of what it holds.
pub proof fn law_unreadable_log_hides(
    path: Seq<char>,
    context: Context,
    stored: StorageModel,
    pool: PoolModel,
    reader: RootModel,
)
    requires
        !storage::log_readable(stored.log, context.vault),
    ensures
        match RootsModel::opened_on(path, context, stored, pool).read(reader) {
            Reading::Missing => !stored.trees.contains_key(reader.name),
            Reading::Refused(_) => stored.trees.contains_key(reader.name),
            Reading::Seen(tree) => tree == TreeModel::empty(tree.versioned),
        },
{
}

/// A vault of the tree's own goes before that of the database.
pub proof fn law_own_vault_first(context: Context, vault: Vault)
    ensures
        context.vault_for(Some(vault)) == Some(vault),
        context.vault_for(None) == context.vault,
{
}

} // verus!
