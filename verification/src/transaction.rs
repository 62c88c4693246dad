//! Transactions, and the entries that they leave in the log.

use vstd::prelude::*;
use crate::bytes;
use crate::bytes::copy_bytes;
use crate::error::{Error, ErrorKind};
use crate::names;
use crate::names::same_name;
use crate::pool;
use crate::transaction_tree::{TransactionId, TransactionTree, TransactionTreeModel};
use crate::tree::Root;

verus! {

/// The number of bytes that may be stored with an entry of the log.
pub const MAXIMUM_DATA_LENGTH: usize = 16_777_208;

/// An entry of the transaction log.
pub struct LogEntry {
    id: TransactionId,
    trees: Vec<String>,
    data: Option<Vec<u8>>,
}

/// An entry of the transaction log, as a mathematical value.
#[verifier::ext_equal]
pub struct LogEntryModel {
    /// The transaction.
    pub id: TransactionId,
    /// The names of its trees.
    pub trees: Seq<Seq<char>>,
    /// What was stored with the entry.
    pub data: Option<Seq<u8>>,
}

impl View for LogEntry {
    type V = LogEntryModel;

    closed spec fn view(&self) -> LogEntryModel {
        LogEntryModel {
            id: self.id,
            trees: names::all_chars(self.trees@),
            data: bytes::optional(self.data),
        }
    }
}

impl LogEntry {
    /// The entry of a transaction over `trees`.
    pub fn new(id: TransactionId, trees: Vec<String>) -> (entry: LogEntry)
        ensures
            entry@ == (LogEntryModel { id, trees: names::all_chars(trees@), data: None }),
    {
        LogEntry { id, trees, data: None }
    }

    /// A copy of the entry.
    pub fn duplicate(&self) -> (copy: LogEntry)
        ensures
            copy@ == self@,
    {
        let mut trees: Vec<String> = Vec::new();
        let mut i: usize = 0;
        while i < self.trees.len()
            invariant
                i <= self.trees@.len(),
                trees@.len() == i,
                forall|j: int| 0 <= j < i ==> (#[trigger] trees@[j])@ == self.trees@[j]@,
            decreases self.trees@.len() - i,
        {
            trees.push(self.trees[i].clone());
            i = i + 1;
        }
        assert(names::all_chars(trees@) =~= names::all_chars(self.trees@));
        let data = match &self.data {
            Some(data) => Some(copy_bytes(data.as_slice())),
            None => None,
        };
        LogEntry { id: self.id, trees, data }
    }

    /// The number of the transaction.
    #[must_use]
    pub fn id(&self) -> (id: TransactionId)
        ensures
            id == self@.id,
    {
        self.id
    }

    /// The names of the trees of the transaction.
    #[must_use]
    pub fn trees(&self) -> (trees: &Vec<String>)
        ensures
            names::all_chars(trees@) == self@.trees,
    {
        &self.trees
    }

    /// What is stored with the entry.
    #[must_use]
    pub fn data(&self) -> (data: Option<&Vec<u8>>)
        ensures
            match data {
                Some(data) => self@.data == Some(data@),
                None => self@.data is None,
            },
    {
        match &self.data {
            Some(data) => Some(data),
            None => None,
        }
    }

    /// Stores `data` with the entry.
    ///
    /// ## Errors
    ///
    /// - [`ErrorKind::ValueTooLarge`]: There are more than [`MAXIMUM_DATA_LENGTH`]
    ///   bytes. The entry is left as it was.
    pub fn set_data(&mut self, data: Vec<u8>) -> (result: Result<(), Error>)
        ensures
            match result {
                Ok(()) => {
                    &&& data@.len() <= MAXIMUM_DATA_LENGTH
                    &&& final(self)@ == (LogEntryModel { data: Some(data@), ..old(self)@ })
                },
                Err(error) => {
                    &&& data@.len() > MAXIMUM_DATA_LENGTH
                    &&& error.kind is ValueTooLarge
                    &&& final(self)@ == old(self)@
                },
            },
    {
        if data.len() > MAXIMUM_DATA_LENGTH {
            return Err(Error::from(ErrorKind::ValueTooLarge));
        }
        self.data = Some(data);
        Ok(())
    }
}

/// A tree that belongs to an [`ExecutingTransaction`].
pub struct UnlockedTransactionTree(pub(crate) TransactionTree);

impl View for UnlockedTransactionTree {
    type V = TransactionTreeModel;

    open(crate) spec fn view(&self) -> TransactionTreeModel {
        self.0@
    }
}

/// A locked transaction tree. This transactional tree is exclusively available for
/// writing and reading to the one that locks it.
pub struct LockedTransactionTree<'transaction> {
    tree: &'transaction mut TransactionTree,
}

impl<'transaction> LockedTransactionTree<'transaction> {
    /// The tree that is locked.
    pub closed spec fn held(self) -> &'transaction mut TransactionTree {
        self.tree
    }

    /// Once a lock has been dropped, the tree stays as it was left.
    pub proof fn lemma_released(self)
        requires
            has_resolved(self),
        ensures
            *final(self.held()) == *self.held(),
    {
    }

    /// The tree, to read from it.
    pub fn deref(&self) -> (tree: &TransactionTree)
        ensures
            *tree == *self.held(),
    {
        self.tree
    }

    /// The tree, to change it.
    pub fn deref_mut(&mut self) -> (tree: &mut TransactionTree)
        ensures
            *tree == *old(self).held(),
            *final(self).held() == *final(tree),
            *final(final(self).held()) == *final(old(self).held()),
    {
        &mut *self.tree
    }
}

impl UnlockedTransactionTree {
    /// The tree is well formed.
    pub open(crate) spec fn wf(&self) -> bool {
        self.0.wf()
    }

    /// Locks this tree so that operations can be performed against it. `R` is the
    /// kind of the tree.
    pub fn lock<R: Root>(&mut self) -> (locked: LockedTransactionTree<'_>)
        requires
            old(self).wf(),
            R::keeps_changes() == old(self)@.published.versioned,
        ensures
            locked.held().wf(),
            locked.held()@ == old(self)@,
            final(locked.held()).wf() ==> final(self).wf(),
            final(self)@ == final(locked.held())@,
    {
        LockedTransactionTree { tree: &mut self.0 }
    }
}

/// The trees that a transaction holds.
pub(crate) struct Hold {
    pub(crate) id: TransactionId,
    pub(crate) names: Vec<String>,
}

/// The trees that a transaction holds, as a mathematical value.
#[verifier::ext_equal]
pub struct HoldModel {
    /// The number of the transaction.
    pub id: TransactionId,
    /// The names of the trees.
    pub names: Seq<Seq<char>>,
}

impl View for Hold {
    type V = HoldModel;

    open(crate) spec fn view(&self) -> HoldModel {
        HoldModel { id: self.id, names: names::all_chars(self.names@) }
    }
}

/// An executing transaction. While this exists, no other transactions can execute
/// across the same trees as this transaction holds.
#[must_use]
pub struct ExecutingTransaction {
    hold: Hold,
    entry: LogEntry,
    trees: Vec<UnlockedTransactionTree>,
}

/// An executing transaction, as a mathematical value.
#[verifier::ext_equal]
pub struct TransactionModel {
    /// What the transaction holds.
    pub hold: HoldModel,
    /// What will stand in the log.
    pub entry: LogEntryModel,
    /// The trees.
    pub trees: Seq<TransactionTreeModel>,
}

impl TransactionModel {
    /// The first tree named `name` among the first `n`.
    pub open spec fn named_before(self, name: Seq<char>, n: nat) -> Option<TransactionTreeModel>
        decreases n,
    {
        if n == 0 {
            None
        } else {
            match self.named_before(name, (n - 1) as nat) {
                Some(tree) => Some(tree),
                None => if self.trees[n - 1].name == name {
                    Some(self.trees[n - 1])
                } else {
                    None
                },
            }
        }
    }

    /// The tree named `name`, if the transaction holds it.
    pub open spec fn tree_named(self, name: Seq<char>) -> Option<TransactionTreeModel> {
        self.named_before(name, self.trees.len())
    }

    proof fn lemma_named_before(self, name: Seq<char>, i: int, n: nat)
        requires
            0 <= i < n <= self.trees.len(),
            self.named_before(name, i as nat) is None,
            self.trees[i].name == name,
        ensures
            self.named_before(name, n) == Some(self.trees[i]),
        decreases n,
    {
        if n > i + 1 {
            self.lemma_named_before(name, i, (n - 1) as nat);
        }
    }
}

/// The trees of a transaction, as mathematical values.
pub open spec fn all_unlocked(trees: Seq<UnlockedTransactionTree>) -> Seq<TransactionTreeModel> {
    Seq::new(trees.len(), |i: int| trees[i]@)
}

impl View for ExecutingTransaction {
    type V = TransactionModel;

    closed spec fn view(&self) -> TransactionModel {
        TransactionModel {
            hold: self.hold@,
            entry: self.entry@,
            trees: all_unlocked(self.trees@),
        }
    }
}

/// A transaction, where there is one, as a mathematical value.
pub open spec fn model_of(executing: Option<&ExecutingTransaction>) -> Option<TransactionModel> {
    match executing {
        Some(transaction) => Some(transaction@),
        None => None,
    }
}

impl ExecutingTransaction {
    /// Each tree is well formed.
    pub closed spec fn wf(&self) -> bool {
        forall|i: int| 0 <= i < self.trees@.len() ==> (#[trigger] self.trees@[i]).wf()
    }

    /// A transaction over `trees` that leaves `entry` in the log.
    pub(crate) fn new(
        hold: Hold,
        entry: LogEntry,
        trees: Vec<UnlockedTransactionTree>,
    ) -> (transaction: ExecutingTransaction)
        requires
            forall|i: int| 0 <= i < trees@.len() ==> (#[trigger] trees@[i]).wf(),
        ensures
            transaction.wf(),
            transaction@ == (TransactionModel {
                hold: hold@,
                entry: entry@,
                trees: all_unlocked(trees@),
            }),
    {
        ExecutingTransaction { hold, entry, trees }
    }

    /// Takes the transaction apart.
    pub(crate) fn into_parts(self) -> (parts: (Hold, LogEntry, Vec<TransactionTree>))
        requires
            self.wf(),
        ensures
            parts.0@ == self@.hold,
            parts.1@ == self@.entry,
            pool::all_wf(parts.2@),
            pool::all_trees(parts.2@) == self@.trees,
    {
        let mut trees: Vec<TransactionTree> = Vec::new();
        let mut rest = self.trees;
        let ghost all = rest@;
        while rest.len() > 0
            invariant
                forall|i: int| 0 <= i < all.len() ==> (#[trigger] all[i]).wf(),
                rest@.len() + trees@.len() == all.len(),
                forall|i: int|
                    0 <= i < rest@.len() ==> #[trigger] rest@[i] == all[i + trees@.len()],
                forall|i: int| 0 <= i < trees@.len() ==> #[trigger] trees@[i] == all[i].0,
            decreases rest@.len(),
        {
            let tree = rest.remove(0);
            trees.push(tree.0);
        }
        assert forall|i: int| 0 <= i < trees@.len() implies (#[trigger] trees@[i]).wf() by {
            assert(all[i].wf());
        }
        assert(pool::all_trees(trees@) =~= all_unlocked(all));
        (self.hold, self.entry, trees)
    }

    /// Returns the [`LogEntry`] for this transaction.
    #[must_use]
    pub fn entry(&self) -> (entry: &LogEntry)
        ensures
            entry@ == self@.entry,
    {
        &self.entry
    }

    /// Returns a mutable reference to the [`LogEntry`] for this transaction.
    #[must_use]
    pub fn entry_mut(&mut self) -> (entry: &mut LogEntry)
        ensures
            entry@ == old(self)@.entry,
            final(self)@ == (TransactionModel { entry: final(entry)@, ..old(self)@ }),
            old(self).wf() ==> final(self).wf(),
    {
        &mut self.entry
    }

    /// Accesses a locked tree. `R` is the kind of the tree.
    pub fn tree<R: Root>(&mut self, index: usize) -> (locked: Option<LockedTransactionTree<'_>>)
        requires
            old(self).wf(),
            index < old(self)@.trees.len() ==> R::keeps_changes()
                == old(self)@.trees[index as int].published.versioned,
        ensures
            match locked {
                Some(locked) => {
                    &&& index < old(self)@.trees.len()
                    &&& locked.held().wf()
                    &&& locked.held()@ == old(self)@.trees[index as int]
                    &&& final(locked.held()).wf() ==> final(self).wf()
                    &&& final(self)@ == (TransactionModel {
                        trees: old(self)@.trees.update(index as int, final(locked.held())@),
                        ..old(self)@
                    })
                },
                None => {
                    &&& index >= old(self)@.trees.len()
                    &&& *final(self) == *old(self)
                },
            },
    {
        match self.unlocked_tree(index) {
            Some(tree) => Some(tree.lock::<R>()),
            None => None,
        }
    }

    /// Accesses two different trees that are both locked. `R` is the kind of the one at
    /// `first`, and `S` of the one at `second`.
    pub fn two_trees<R: Root, S: Root>(&mut self, first: usize, second: usize) -> (locked: Option<
        (LockedTransactionTree<'_>, LockedTransactionTree<'_>),
    >)
        requires
            old(self).wf(),
            first < old(self)@.trees.len() ==> R::keeps_changes()
                == old(self)@.trees[first as int].published.versioned,
            second < old(self)@.trees.len() ==> S::keeps_changes()
                == old(self)@.trees[second as int].published.versioned,
        ensures
            match locked {
                Some((one, other)) => {
                    &&& first != second
                    &&& first < old(self)@.trees.len()
                    &&& second < old(self)@.trees.len()
                    &&& one.held().wf() && other.held().wf()
                    &&& one.held()@ == old(self)@.trees[first as int]
                    &&& other.held()@ == old(self)@.trees[second as int]
                    &&& final(one.held()).wf() && final(other.held()).wf() ==> final(self).wf()
                    &&& final(self)@ == (TransactionModel {
                        trees: old(self)@.trees.update(first as int, final(one.held())@).update(
                            second as int,
                            final(other.held())@,
                        ),
                        ..old(self)@
                    })
                },
                None => {
                    &&& first == second || first >= old(self)@.trees.len() || second >= old(
                        self,
                    )@.trees.len()
                    &&& *final(self) == *old(self)
                },
            },
    {
        let count: usize = self.trees.len();
        if first == second || first >= count || second >= count {
            return None;
        }
        let trees = self.trees.as_mut_slice();
        if first < second {
            let (left, right) = trees.split_at_mut(second);
            let one = LockedTransactionTree { tree: &mut left[first].0 };
            let other = LockedTransactionTree { tree: &mut right[0].0 };
            Some((one, other))
        } else {
            let (left, right) = trees.split_at_mut(first);
            let one = LockedTransactionTree { tree: &mut right[0].0 };
            let other = LockedTransactionTree { tree: &mut left[second].0 };
            Some((one, other))
        }
    }

    /// The tree named `name`, if the transaction holds it.
    pub(crate) fn tree_named(&self, name: &str) -> (tree: Option<&TransactionTree>)
        requires
            self.wf(),
        ensures
            match tree {
                Some(tree) => {
                    &&& tree.wf()
                    &&& tree@.name == name@
                    &&& self@.tree_named(name@) == Some(tree@)
                },
                None => self@.tree_named(name@) is None,
            },
    {
        let mut i: usize = 0;
        while i < self.trees.len()
            invariant
                self.wf(),
                i <= self.trees@.len(),
                self@.named_before(name@, i as nat) is None,
            decreases self.trees@.len() - i,
        {
            let tree = &self.trees[i].0;
            assert(self@.trees[i as int] == tree@);
            assert(self.trees@[i as int].wf());
            if same_name(tree.tree.name.as_str(), name) {
                proof {
                    self@.lemma_named_before(name@, i as int, self@.trees.len());
                }
                return Some(tree);
            }
            i = i + 1;
        }
        None
    }

    /// The first tree.
    pub(crate) fn first_tree(&mut self) -> (tree: &mut TransactionTree)
        requires
            old(self).wf(),
            old(self)@.trees.len() > 0,
        ensures
            tree.wf(),
            tree@ == old(self)@.trees[0],
            final(tree).wf() ==> final(self).wf(),
            final(self)@ == (TransactionModel {
                trees: old(self)@.trees.update(0, final(tree)@),
                ..old(self)@
            }),
    {
        let unlocked = &mut self.trees[0];
        &mut unlocked.0
    }

    /// Accesses an unlocked tree.
    pub fn unlocked_tree(&mut self, index: usize) -> (unlocked: Option<
        &mut UnlockedTransactionTree,
    >)
        requires
            old(self).wf(),
        ensures
            match unlocked {
                Some(tree) => {
                    &&& index < old(self)@.trees.len()
                    &&& tree.wf()
                    &&& tree@ == old(self)@.trees[index as int]
                    &&& final(tree).wf() ==> final(self).wf()
                    &&& final(self)@ == (TransactionModel {
                        trees: old(self)@.trees.update(index as int, final(tree)@),
                        ..old(self)@
                    })
                },
                None => {
                    &&& index >= old(self)@.trees.len()
                    &&& *final(self) == *old(self)
                },
            },
    {
        if index < self.trees.len() {
            let tree = &mut self.trees[index];
            Some(tree)
        } else {
            None
        }
    }
}

} // verus!
