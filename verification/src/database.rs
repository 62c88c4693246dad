//! A database, as a mathematical value, and what its operations do to it.

use vstd::prelude::*;
use crate::model::TreeModel;
use crate::pool::PoolModel;
use crate::storage;
use crate::storage::{Context, LogRecordModel, StorageModel, StoredTreeModel};
use crate::transaction::{HoldModel, LogEntryModel, TransactionModel};
use crate::transaction_tree::{TransactionId, TransactionTreeModel};
use crate::tree::{RootModel, Vault};

verus! {

/// How a transaction ends for a tree.
#[derive(Clone, Copy, Debug, PartialEq, Eq, Structural)]
pub enum Ending {
    /// Its changes have been recorded, and readers see them.
    Published,
    /// Its changes could not be recorded. Readers do not see them, but the next
    /// transaction starts from them.
    Kept,
    /// Its changes are dropped.
    RolledBack,
}

/// Why the file of a tree cannot be opened.
#[derive(Clone, Copy, Debug, PartialEq, Eq, Structural)]
pub enum Refusal {
    /// It was written under another vault.
    Vault,
    /// It was written as a tree of another kind.
    Kind,
}

/// What a reader finds of a tree.
pub enum Reading {
    /// There is no such tree.
    Missing,
    /// Its file cannot be opened.
    Refused(Refusal),
    /// The tree.
    Seen(TreeModel),
}

/// A tree of a database.
#[verifier::ext_equal]
pub struct SlotModel {
    /// The file holds a tree that keeps every change.
    pub versioned: bool,
    /// The file of the tree.
    pub file_id: u64,
    /// The vault under which the file was written, once it has been.
    pub sealed: Option<Option<Vault>>,
    /// What readers see.
    pub published: TreeModel,
    /// What the next transaction starts from.
    pub pending: TreeModel,
    /// What the file holds.
    pub stored: TreeModel,
}

impl SlotModel {
    /// A tree whose file has just been made.
    pub open spec fn fresh(versioned: bool, file_id: u64) -> SlotModel {
        SlotModel {
            versioned,
            file_id,
            sealed: None,
            published: TreeModel::empty(versioned),
            pending: TreeModel::empty(versioned),
            stored: TreeModel::empty(versioned),
        }
    }

    /// The tree once a transaction has ended that has left it as `tree`.
    pub open spec fn ended(self, tree: TransactionTreeModel, ending: Ending) -> SlotModel {
        match ending {
            Ending::Published => SlotModel {
                sealed: Some(tree.vault),
                published: tree.pending,
                pending: tree.pending,
                stored: tree.pending,
                ..self
            },
            Ending::Kept => SlotModel { pending: tree.pending, ..self },
            Ending::RolledBack => SlotModel { pending: self.published, ..self },
        }
    }

    /// Each state is consistent and of the kind of the tree. A file that was never
    /// written holds nothing.
    pub open spec fn consistent(self) -> bool {
        &&& self.published.consistent() && self.published.versioned == self.versioned
        &&& self.pending.consistent() && self.pending.versioned == self.versioned
        &&& self.stored.consistent() && self.stored.versioned == self.versioned
        &&& self.sealed is None ==> {
            &&& self.published == TreeModel::empty(self.versioned)
            &&& self.stored == TreeModel::empty(self.versioned)
        }
    }

    /// Why the file cannot be opened under `vault` as a tree of the given kind, if it
    /// cannot. A file that was never written can be opened in any way.
    pub open spec fn refusal(self, versioned: bool, vault: Option<Vault>) -> Option<Refusal> {
        match self.sealed {
            Some(sealed) => if sealed != vault {
                Some(Refusal::Vault)
            } else if self.versioned != versioned {
                Some(Refusal::Kind)
            } else {
                None
            },
            None => None,
        }
    }
}

/// The number behind `id`. Behind the largest comes 0.
pub open spec fn following(id: u64) -> u64 {
    if id == u64::MAX {
        0
    } else {
        (id + 1) as u64
    }
}

/// A database.
#[verifier::ext_equal]
pub struct RootsModel {
    /// The directory of the database.
    pub path: Seq<char>,
    pub context: Context,
    /// The trees, by name.
    pub trees: Map<Seq<char>, SlotModel>,
    /// The kinds of the trees that have been asked for since the database was opened:
    /// whether they keep every change.
    pub kinds: Map<Seq<char>, bool>,
    /// The trees that a transaction holds, whether or not they are still there, and
    /// the number of that transaction.
    pub locks: Map<Seq<char>, TransactionId>,
    /// The transactions that have been recorded.
    pub log: Seq<LogRecordModel>,
    pub next_transaction: TransactionId,
    pub next_file: u64,
    pub pool: PoolModel,
}

impl RootsModel {
    /// The log can be read under the vault of the database.
    pub open spec fn readable(self) -> bool {
        storage::log_readable(self.log, self.context.vault)
    }

    /// What holds of every database: each tree is consistent, and where the log can
    /// be read, readers see what the files hold.
    pub open spec fn consistent(self) -> bool {
        forall|name: Seq<char>| #[trigger]
            self.trees.contains_key(name) ==> {
                &&& self.trees[name].consistent()
                &&& self.readable() ==> self.trees[name].stored == self.trees[name].published
            }
    }

    /// The database right after it has been opened on `storage`. Where the log
    /// cannot be read, no transaction counts, and readers see empty trees.
    pub open spec fn opened_on(
        path: Seq<char>,
        context: Context,
        storage: StorageModel,
        pool: PoolModel,
    ) -> RootsModel {
        let readable = storage::log_readable(storage.log, context.vault);
        RootsModel {
            path,
            context,
            trees: storage.trees.map_values(
                |tree: StoredTreeModel| RootsModel::slot_of(tree, readable),
            ),
            kinds: Map::empty(),
            locks: Map::empty(),
            log: storage.log,
            next_transaction: storage.next_transaction,
            next_file: storage.next_file,
            pool,
        }
    }

    /// A stored tree right after the database has been opened.
    pub open spec fn slot_of(tree: StoredTreeModel, readable: bool) -> SlotModel {
        let seen = if readable {
            tree.contents
        } else {
            TreeModel::empty(tree.versioned)
        };
        SlotModel {
            versioned: tree.versioned,
            file_id: tree.file_id,
            sealed: tree.sealed,
            published: seen,
            pending: seen,
            stored: tree.contents,
        }
    }

    /// What the database stores.
    pub open spec fn storage(self) -> StorageModel {
        StorageModel {
            kind: self.context.file_manager,
            trees: self.trees.map_values(
                |slot: SlotModel|
                    StoredTreeModel {
                        versioned: slot.versioned,
                        file_id: slot.file_id,
                        sealed: slot.sealed,
                        contents: slot.stored,
                    },
            ),
            log: self.log,
            next_file: self.next_file,
            next_transaction: self.next_transaction,
        }
    }

    /// The tree of `root` has not been asked for as one of another kind.
    pub open spec fn agrees(self, root: RootModel) -> bool {
        self.kinds.contains_key(root.name) ==> self.kinds[root.name] == root.versioned
    }

    /// A transaction holds the tree named `name`.
    pub open spec fn holds_lock(self, name: Seq<char>) -> bool {
        self.locks.contains_key(name)
    }

    /// Why the file of the tree of `root` cannot be opened, if it cannot.
    pub open spec fn refusal(self, root: RootModel) -> Option<Refusal> {
        if self.trees.contains_key(root.name) {
            self.trees[root.name].refusal(root.versioned, self.context.vault_for(root.vault))
        } else {
            None
        }
    }

    /// The database after the tree of `root` has been asked for.
    pub open spec fn with_kind(self, root: RootModel) -> RootsModel {
        if self.kinds.contains_key(root.name) {
            self
        } else {
            RootsModel { kinds: self.kinds.insert(root.name, root.versioned), ..self }
        }
    }

    /// The database after the trees of the first `n` of `roots` have been asked for.
    pub open spec fn with_kinds(self, roots: Seq<RootModel>, n: nat) -> RootsModel
        decreases n,
    {
        if n == 0 {
            self
        } else {
            self.with_kinds(roots, (n - 1) as nat).with_kind(roots[n - 1])
        }
    }

    /// The database with a file for the tree of `root`. One is made if there is none,
    /// and one that was never written takes the kind that is asked for.
    pub open spec fn with_file(self, root: RootModel) -> RootsModel {
        if !self.trees.contains_key(root.name) {
            RootsModel {
                trees: self.trees.insert(
                    root.name,
                    SlotModel::fresh(root.versioned, self.next_file),
                ),
                next_file: following(self.next_file),
                ..self
            }
        } else if self.trees[root.name].sealed is None && self.trees[root.name].versioned
            != root.versioned {
            RootsModel {
                trees: self.trees.insert(
                    root.name,
                    SlotModel::fresh(root.versioned, self.trees[root.name].file_id),
                ),
                ..self
            }
        } else {
            self
        }
    }

    /// The database with files for the trees of the first `n` of `roots`.
    pub open spec fn with_files(self, roots: Seq<RootModel>, n: nat) -> RootsModel
        decreases n,
    {
        if n == 0 {
            self
        } else {
            self.with_files(roots, (n - 1) as nat).with_file(roots[n - 1])
        }
    }

    /// The database with the tree of `root`, which is made if there is none.
    pub open spec fn with_tree(self, root: RootModel) -> RootsModel {
        self.with_kind(root).with_file(root)
    }

    /// The database after a number has been given to a transaction.
    pub open spec fn numbered(self) -> RootsModel {
        RootsModel { next_transaction: following(self.next_transaction), ..self }
    }

    /// The database after a transaction has asked for the trees of `roots`, with files
    /// for the first `n` of them.
    pub open spec fn prepared(self, roots: Seq<RootModel>, n: nat) -> RootsModel {
        self.numbered().with_kinds(roots, roots.len()).with_files(roots, n)
    }

    /// `name` is among the first `n` of `roots`.
    pub open spec fn named(roots: Seq<RootModel>, n: int, name: Seq<char>) -> bool {
        exists|i: int| 0 <= i < n && (#[trigger] roots[i]).name == name
    }

    /// The database with locks of transaction number `id` on the trees of the first
    /// `n` of `roots`.
    pub open spec fn locking(self, roots: Seq<RootModel>, n: int, id: TransactionId) -> RootsModel {
        RootsModel {
            locks: Map::new(
                |name: Seq<char>|
                    self.locks.contains_key(name) || RootsModel::named(roots, n, name),
                |name: Seq<char>|
                    if RootsModel::named(roots, n, name) {
                        id
                    } else {
                        self.locks[name]
                    },
            ),
            ..self
        }
    }

    /// Some tree is named twice.
    pub open spec fn repeated(roots: Seq<RootModel>) -> bool {
        exists|i: int, j: int|
            0 <= i < j < roots.len() && (#[trigger] roots[i]).name == (#[trigger] roots[j]).name
    }

    /// Some tree of `roots` is held by a transaction.
    pub open spec fn held(self, roots: Seq<RootModel>) -> bool {
        exists|i: int| 0 <= i < roots.len() && self.holds_lock((#[trigger] roots[i]).name)
    }

    /// Some tree of `roots` is held by a transaction, or is named twice.
    pub open spec fn blocked(self, roots: Seq<RootModel>) -> bool {
        self.held(roots) || RootsModel::repeated(roots)
    }

    /// The first of `roots` whose file cannot be opened is number `k`, and `why`.
    pub open spec fn first_refusal(self, roots: Seq<RootModel>, k: int, why: Refusal) -> bool {
        &&& 0 <= k < roots.len()
        &&& self.refusal(roots[k]) == Some(why)
        &&& forall|i: int| 0 <= i < k ==> self.refusal(#[trigger] roots[i]) is None
    }

    /// The tree of `root`, opened for transaction number `id`.
    pub open spec fn opened(self, root: RootModel, id: TransactionId) -> TransactionTreeModel {
        TransactionTreeModel {
            transaction_id: id,
            name: root.name,
            file_id: self.trees[root.name].file_id,
            vault: self.context.vault_for(root.vault),
            written: false,
            published: self.trees[root.name].published,
            pending: self.trees[root.name].pending,
        }
    }

    /// The transaction that begins now over the trees of `roots`.
    pub open spec fn transaction_over(self, roots: Seq<RootModel>) -> TransactionModel {
        let made = self.prepared(roots, roots.len());
        let names = Seq::new(roots.len(), |i: int| roots[i].name);
        TransactionModel {
            hold: HoldModel { id: self.next_transaction, names },
            entry: LogEntryModel { id: self.next_transaction, trees: names, data: None },
            trees: Seq::new(roots.len(), |i: int| made.opened(roots[i], self.next_transaction)),
        }
    }

    /// The database after a transaction has begun over the trees of `roots`.
    pub open spec fn begun(self, roots: Seq<RootModel>) -> RootsModel {
        self.prepared(roots, roots.len()).locking(
            roots,
            roots.len() as int,
            self.next_transaction,
        )
    }

    /// `tree` was opened from the file that its name stands for now.
    pub open spec fn holds(self, tree: TransactionTreeModel) -> bool {
        &&& self.trees.contains_key(tree.name)
        &&& self.trees[tree.name].file_id == tree.file_id
        &&& self.trees[tree.name].versioned == tree.published.versioned
    }

    /// The database once a transaction has ended for `tree`.
    pub open spec fn ended(self, tree: TransactionTreeModel, ending: Ending) -> RootsModel {
        if self.holds(tree) {
            RootsModel {
                trees: self.trees.insert(tree.name, self.trees[tree.name].ended(tree, ending)),
                ..self
            }
        } else {
            self
        }
    }

    /// The database once a transaction has ended for the first `n` of `trees`.
    pub open spec fn all_ended(
        self,
        trees: Seq<TransactionTreeModel>,
        ending: Ending,
        n: nat,
    ) -> RootsModel
        decreases n,
    {
        if n == 0 {
            self
        } else {
            self.all_ended(trees, ending, (n - 1) as nat).ended(trees[n - 1], ending)
        }
    }

    /// The database after `entry` has been pushed to the log.
    pub open spec fn logged(self, entry: LogEntryModel) -> RootsModel {
        RootsModel {
            log: self.log.push(LogRecordModel { vault: self.context.vault, entry }),
            ..self
        }
    }

    /// The trees of `hold` are held, by that transaction.
    pub open spec fn holds_all(self, hold: HoldModel) -> bool {
        forall|name: Seq<char>| #[trigger]
            hold.names.contains(name) ==> self.locks.contains_key(name) && self.locks[name]
                == hold.id
    }

    /// The database after a transaction has let go of the trees that it held.
    pub open spec fn released(self, hold: HoldModel) -> RootsModel {
        RootsModel {
            locks: Map::new(
                |name: Seq<char>|
                    self.locks.contains_key(name) && !(hold.names.contains(name)
                        && self.locks[name] == hold.id),
                |name: Seq<char>| self.locks[name],
            ),
            ..self
        }
    }

    /// The database after `transaction` has been committed.
    pub open spec fn committed(self, transaction: TransactionModel) -> RootsModel {
        self.logged(transaction.entry).all_ended(
            transaction.trees,
            Ending::Published,
            transaction.trees.len(),
        ).released(transaction.hold)
    }

    /// The database after the commit of `transaction` has failed.
    pub open spec fn uncommitted(self, transaction: TransactionModel) -> RootsModel {
        self.all_ended(transaction.trees, Ending::Kept, transaction.trees.len()).released(
            transaction.hold,
        )
    }

    /// The database after `transaction` has been rolled back.
    pub open spec fn rolled_back(self, transaction: TransactionModel) -> RootsModel {
        self.all_ended(transaction.trees, Ending::RolledBack, transaction.trees.len()).released(
            transaction.hold,
        )
    }

    /// What a transaction over the tree of `root` starts from.
    pub open spec fn current(self, root: RootModel) -> TreeModel {
        self.with_tree(root).trees[root.name].pending
    }

    /// The database after a transaction of its own has left the tree of `root` as
    /// `tree`.
    pub open spec fn applied(self, root: RootModel, tree: TreeModel) -> RootsModel {
        let made = self.with_tree(root);
        let entry = self.change_entry(root);
        RootsModel {
            trees: made.trees.insert(
                root.name,
                SlotModel {
                    sealed: Some(self.context.vault_for(root.vault)),
                    published: tree,
                    pending: tree,
                    stored: tree,
                    ..made.trees[root.name]
                },
            ),
            log: self.log.push(LogRecordModel { vault: self.context.vault, entry }),
            next_transaction: following(self.next_transaction),
            ..made
        }
    }

    /// The tree of `root` as a transaction of its own hands it over to be written, when
    /// it has left it as `tree`.
    pub open spec fn change_tree(self, root: RootModel, tree: TreeModel) -> TransactionTreeModel {
        self.with_tree(root).opened(root, self.next_transaction).changed(tree)
    }

    /// What a transaction of its own over the tree of `root` leaves in the log.
    pub open spec fn change_entry(self, root: RootModel) -> LogEntryModel {
        LogEntryModel { id: self.next_transaction, trees: seq![root.name], data: None }
    }

    /// The database after the commit of a transaction of its own has failed, which has
    /// left the tree of `root` as `tree`: readers do not see that, but the next
    /// transaction starts from it.
    pub open spec fn unapplied(self, root: RootModel, tree: TreeModel) -> RootsModel {
        let made = self.with_tree(root).numbered();
        RootsModel {
            trees: made.trees.insert(
                root.name,
                SlotModel { pending: tree, ..made.trees[root.name] },
            ),
            ..made
        }
    }

    /// The database after a transaction of its own over the tree of `root` has been
    /// rolled back.
    pub open spec fn abandoned(self, root: RootModel) -> RootsModel {
        let made = self.with_tree(root).numbered();
        RootsModel {
            trees: made.trees.insert(
                root.name,
                SlotModel {
                    pending: made.trees[root.name].published,
                    ..made.trees[root.name]
                },
            ),
            ..made
        }
    }

    /// What a reader finds who reads the tree of `root`.
    pub open spec fn read(self, root: RootModel) -> Reading {
        if !self.trees.contains_key(root.name) {
            Reading::Missing
        } else {
            match self.refusal(root) {
                Some(why) => Reading::Refused(why),
                None => Reading::Seen(self.trees[root.name].published),
            }
        }
    }

    /// A transaction over the tree of `root` can begin.
    pub open spec fn admits(self, root: RootModel) -> bool {
        !self.holds_lock(root.name) && self.refusal(root) is None
    }

    /// The database after the tree named `name` has been deleted. A transaction that
    /// holds the name still does.
    pub open spec fn deleted(self, name: Seq<char>) -> RootsModel {
        RootsModel {
            trees: self.trees.remove(name),
            kinds: self.kinds.remove(name),
            ..self
        }
    }

    /// The database after the tree named `name` has been compacted: its contents
    /// stand in a new file.
    pub open spec fn compacted(self, name: Seq<char>) -> RootsModel {
        RootsModel {
            trees: self.trees.insert(
                name,
                SlotModel { file_id: self.next_file, ..self.trees[name] },
            ),
            next_file: following(self.next_file),
            ..self
        }
    }

    /// The latest state of the tree named `name`, with what `executing` has changed,
    /// where that transaction holds the tree.
    pub open spec fn latest(self, name: Seq<char>, executing: Option<TransactionModel>) -> Option<
        TreeModel,
    > {
        if !self.trees.contains_key(name) {
            None
        } else if executing matches Some(transaction) && transaction.tree_named(name) matches Some(
            tree,
        ) && self.holds(tree) {
            Some(executing->0.tree_named(name)->0.pending)
        } else {
            Some(self.trees[name].pending)
        }
    }

    /// Asking for trees changes nothing but what has been asked for.
    pub proof fn lemma_with_kinds(self, roots: Seq<RootModel>, n: nat)
        requires
            n <= roots.len(),
        ensures
            ({
                let after = self.with_kinds(roots, n);
                after == RootsModel { kinds: after.kinds, ..self }
            }),
        decreases n,
    {
        if n > 0 {
            self.lemma_with_kinds(roots, (n - 1) as nat);
        }
    }

    /// Making files leaves alone what was written, and what is not asked for.
    pub proof fn lemma_with_files(self, roots: Seq<RootModel>, n: nat, name: Seq<char>)
        requires
            n <= roots.len(),
        ensures
            ({
                let after = self.with_files(roots, n);
                &&& after == RootsModel { trees: after.trees, next_file: after.next_file, ..self }
                &&& after.trees.contains_key(name) == (self.trees.contains_key(name)
                    || RootsModel::named(roots, n as int, name))
                &&& self.trees.contains_key(name) && (self.trees[name].sealed is Some
                    || !RootsModel::named(roots, n as int, name)) ==> after.trees[name]
                    == self.trees[name]
            }),
        decreases n,
    {
        if n > 0 {
            self.lemma_with_files(roots, (n - 1) as nat, name);
            let before = RootsModel::named(roots, n - 1, name);
            let now = RootsModel::named(roots, n as int, name);
            if roots[n - 1].name == name {
                assert(now);
            } else if now {
                let i = choose|i: int| 0 <= i < n && (#[trigger] roots[i]).name == name;
                assert(i < n - 1);
                assert(before);
            }
            if before {
                assert(now);
            }
        }
    }

    /// What the file of a tree is once it has been made, where no other tree of
    /// `roots` has its name.
    pub proof fn lemma_file_at(self, roots: Seq<RootModel>, i: int, n: nat)
        requires
            0 <= i < n <= roots.len(),
            forall|a: int, b: int|
                0 <= a < b < roots.len() ==> (#[trigger] roots[a]).name != (
                #[trigger] roots[b]).name,
        ensures
            ({
                let before = self.with_files(roots, i as nat);
                let after = self.with_files(roots, n);
                let name = roots[i].name;
                &&& before.trees.contains_key(name) == self.trees.contains_key(name)
                &&& self.trees.contains_key(name) ==> before.trees[name] == self.trees[name]
                &&& after.trees.contains_key(name)
                &&& after.trees[name] == before.with_file(roots[i]).trees[name]
            }),
        decreases n,
    {
        let name = roots[i].name;
        self.lemma_with_files(roots, i as nat, name);
        if RootsModel::named(roots, i, name) {
            let a = choose|a: int| 0 <= a < i && (#[trigger] roots[a]).name == name;
            assert(roots[a].name != roots[i].name);
        }
        if n > i + 1 {
            self.lemma_file_at(roots, i, (n - 1) as nat);
            assert(roots[i].name != roots[n - 1].name);
        }
    }
}

} // verus!
