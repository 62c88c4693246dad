//! The database: several trees, and transactions over them.

use vstd::prelude::*;
use crate::database::{Ending, Reading, Refusal, RootsModel, SlotModel};
use crate::database;
use crate::directory::Directory;
use crate::error::{Error, ErrorKind};
use crate::files;
use crate::files::FileManager;
use crate::model::TreeModel;
use crate::names;
use crate::names::{check_name, same_name, tree_file_name, tree_names_in};
use crate::pool;
use crate::pool::ThreadPool;
use crate::state::TreeState;
use crate::storage;
use crate::storage::{
    AnyFileManager, Context, LogRecord, PathKind, StorageKind, StoredTree, StoredTreeModel,
};
use crate::transaction;
use crate::transaction::{
    ExecutingTransaction, Hold, HoldModel, LogEntry, LogEntryModel, TransactionModel,
    UnlockedTransactionTree,
};
use crate::transaction_tree::{
    AnyTransactionTree, TransactionId, TransactionTree, TransactionTreeModel, TreeFile,
};
use crate::tree::{same_vault, RootModel, State, TreeRoot, Vault};

verus! {

/// A tree of the database.
pub(crate) struct TreeSlot {
    versioned: bool,
    file_id: u64,
    sealed: Option<Option<Vault>>,
    state: State,
    hidden: Option<TreeState>,
}

impl View for TreeSlot {
    type V = SlotModel;

    closed spec fn view(&self) -> SlotModel {
        SlotModel {
            versioned: self.versioned,
            file_id: self.file_id,
            sealed: self.sealed,
            published: self.state@.published,
            pending: self.state@.pending,
            stored: match self.hidden {
                Some(stored) => stored@,
                None => self.state@.published,
            },
        }
    }
}

impl TreeSlot {
    closed spec fn wf(&self) -> bool {
        &&& self.state.wf()
        &&& self.state@.published.versioned == self.versioned
        &&& self.hidden matches Some(stored) ==> stored.wf() && stored@.versioned == self.versioned
        &&& self.sealed is None ==> {
            &&& self@.published == TreeModel::empty(self.versioned)
            &&& self@.stored == TreeModel::empty(self.versioned)
        }
    }

    proof fn lemma_wf(&self)
        requires
            self.wf(),
        ensures
            self@.consistent(),
    {
        self.state.lemma_wf();
        if let Some(stored) = self.hidden {
            stored.lemma_wf();
        }
    }

    /// A tree whose file has just been made.
    fn fresh(versioned: bool, file_id: u64) -> (slot: TreeSlot)
        ensures
            slot.wf(),
            slot@ == SlotModel::fresh(versioned, file_id),
    {
        TreeSlot {
            versioned,
            file_id,
            sealed: None,
            state: State::new(TreeState::new(versioned)),
            hidden: None,
        }
    }

    /// Why the file cannot be opened under `vault` as a tree of the given kind, if it
    /// cannot.
    fn refusal(&self, versioned: bool, vault: Option<Vault>) -> (why: Option<Refusal>)
        ensures
            why == self@.refusal(versioned, vault),
    {
        match self.sealed {
            Some(sealed) => if !same_vault(sealed, vault) {
                Some(Refusal::Vault)
            } else if self.versioned != versioned {
                Some(Refusal::Kind)
            } else {
                None
            },
            None => None,
        }
    }

    /// The tree once a transaction has ended that has left it as `tree`.
    fn ended(self, tree: TransactionTree, ending: Ending) -> (slot: TreeSlot)
        requires
            self.wf(),
            tree.wf(),
            tree@.published.versioned == self@.versioned,
        ensures
            slot.wf(),
            slot@ == self@.ended(tree@, ending),
    {
        proof {
            tree.lemma_wf();
        }
        let mut slot = self;
        let TransactionTree { transaction_id: _, tree: file } = tree;
        let TreeFile { name: _, file_id: _, vault, written: _, state } = file;
        match ending {
            Ending::Published => {
                slot.sealed = Some(vault);
                slot.state = state;
                slot.state.publish();
                slot.hidden = None;
            },
            Ending::Kept => {
                let mut state = state;
                slot.state.end_change(state.begin_change());
            },
            Ending::RolledBack => {
                slot.state.rollback();
            },
        }
        slot
    }
}

/// A multi-tree transactional B-Tree database.
pub struct Roots {
    path: String,
    context: Context,
    trees: Directory<TreeSlot>,
    kinds: Directory<bool>,
    locks: Directory<TransactionId>,
    log: Vec<LogRecord>,
    next_transaction: TransactionId,
    next_file: u64,
    thread_pool: ThreadPool,
}

impl View for Roots {
    type V = RootsModel;

    closed spec fn view(&self) -> RootsModel {
        RootsModel {
            path: self.path@,
            context: self.context,
            trees: self.trees@.map_values(|slot: TreeSlot| slot@),
            kinds: self.kinds@,
            locks: self.locks@,
            log: storage::all_records(self.log@),
            next_transaction: self.next_transaction,
            next_file: self.next_file,
            pool: self.thread_pool@,
        }
    }
}

/// The number behind `id`.
fn following(id: u64) -> (next: u64)
    ensures
        next == database::following(id),
{
    if id == u64::MAX {
        0
    } else {
        id + 1
    }
}

/// The descriptions of trees, as mathematical values.
pub open spec fn all_roots(roots: Seq<TreeRoot>) -> Seq<RootModel> {
    Seq::new(roots.len(), |i: int| roots[i]@)
}

/// How a path is shown in a message.
pub uninterp spec fn shown_path(path: Seq<char>) -> Seq<char>;

/// Shows a path in a message, by its `std::fmt::Debug`. What it looks like depends on
/// the path alone.
#[verifier::external_body]
fn show_path(path: &str) -> (shown: String)
    ensures
        shown@ == shown_path(path@),
{
    format!("{:?}", std::path::Path::new(path))
}

/// The message for a database whose directory, shown as `shown`, is no directory.
pub open spec fn not_a_directory(shown: Seq<char>) -> Seq<char> {
    "'"@ + shown + "' already exists, but is not a directory."@
}

/// Writes the message for a database whose directory is no directory.
pub fn directory_message(shown: &str) -> (message: String)
    ensures
        message@ == not_a_directory(shown@),
{
    let mut message = "'".to_owned();
    message.append(shown);
    message.append("' already exists, but is not a directory.");
    message
}

/// Where the file of a tree is.
pub struct TreePath {
    /// The directory of the database.
    pub directory: String,
    /// The name of the file within it.
    pub file: String,
}

/// The file of the tree `name` in the directory `path`.
pub open spec fn is_tree_path(tree_path: TreePath, path: Seq<char>, name: Seq<char>) -> bool {
    &&& tree_path.directory@ == path
    &&& tree_path.file@ == names::file_name_of(name)
}

impl Roots {
    /// Each tree is well formed, and where the log can be read, readers see what the
    /// files hold.
    pub closed spec fn wf(&self) -> bool {
        &&& self.trees.wf()
        &&& self.kinds.wf()
        &&& self.locks.wf()
        &&& forall|name: Seq<char>| #[trigger]
            self.trees@.contains_key(name) ==> self.trees@[name].wf()
        &&& self@.consistent()
    }

    /// The database is consistent.
    pub proof fn lemma_wf(&self)
        requires
            self.wf(),
        ensures
            self@.consistent(),
    {
    }

    /// Takes note of the kind that the tree of `root` is asked for as.
    fn note_kind(&mut self, root: &TreeRoot)
        requires
            old(self).wf(),
        ensures
            final(self).wf(),
            final(self)@ == old(self)@.with_kind(root@),
    {
        if !self.kinds.contains(root.name.as_str()) {
            self.kinds.insert(root.name.as_str(), root.versioned);
            assert(self@ =~= old(self)@.with_kind(root@));
            assert(self@.consistent());
        }
    }

    /// Makes the file of the tree of `root`, if there is none. One that was never
    /// written takes the kind that is asked for.
    fn make_file(&mut self, root: &TreeRoot)
        requires
            old(self).wf(),
        ensures
            final(self).wf(),
            final(self)@ == old(self)@.with_file(root@),
    {
        let remade = match self.trees.get(root.name.as_str()) {
            Some(slot) => {
                assert(self@.trees[root@.name] == slot@);
                if slot.sealed.is_none() && slot.versioned != root.versioned {
                    Some(slot.file_id)
                } else {
                    None
                }
            },
            None => {
                assert(!self@.trees.contains_key(root@.name));
                let file_id = self.next_file;
                self.next_file = following(file_id);
                Some(file_id)
            },
        };
        if let Some(file_id) = remade {
            let slot = TreeSlot::fresh(root.versioned, file_id);
            proof {
                slot.lemma_wf();
            }
            self.trees.insert(root.name.as_str(), slot);
        }
        assert(self@ =~= old(self)@.with_file(root@));
        assert(self@.consistent());
    }

    /// Makes the tree of `root`, if there is none.
    pub(crate) fn make_tree(&mut self, root: &TreeRoot)
        requires
            old(self).wf(),
        ensures
            final(self).wf(),
            final(self)@ == old(self)@.with_tree(root@),
    {
        self.note_kind(root);
        self.make_file(root);
    }

    /// Lets go of the trees that a transaction held.
    fn release(&mut self, hold: &Hold)
        requires
            old(self).wf(),
        ensures
            final(self).wf(),
            final(self)@ == old(self)@.released(hold@),
    {
        let ghost start = self@;
        let ghost all = hold@.names;
        let mut i: usize = 0;
        assert(self@ =~= start.released(HoldModel { names: all.take(0), ..hold@ }));
        while i < hold.names.len()
            invariant
                self.wf(),
                all == hold@.names,
                all.len() == hold.names@.len(),
                i <= hold.names@.len(),
                self@ == start.released(HoldModel { names: all.take(i as int), ..hold@ }),
            decreases hold.names@.len() - i,
        {
            let name = hold.names[i].as_str();
            proof {
                assert(all[i as int] == name@);
                let earlier = all.take(i as int);
                let now = all.take(i + 1);
                assert forall|other: Seq<char>| #[trigger]
                    now.contains(other) <==> earlier.contains(other) || other == name@ by {
                    if earlier.contains(other) {
                        let j = earlier.index_of(other);
                        assert(now[j] == other);
                    }
                    assert(now[i as int] == name@);
                    if now.contains(other) && other != name@ {
                        let j = now.index_of(other);
                        assert(earlier[j] == other);
                    }
                }
            }
            let held = match self.locks.get(name) {
                Some(id) => *id == hold.id,
                None => false,
            };
            if held {
                let _ = self.locks.remove(name);
            }
            assert(self@ =~= start.released(HoldModel { names: all.take(i + 1), ..hold@ }));
            assert(self@.consistent());
            i = i + 1;
        }
        assert(all.take(i as int) =~= all);
    }

    /// Ends a transaction for one of its trees.
    fn end_tree(&mut self, tree: TransactionTree, ending: Ending)
        requires
            old(self).wf(),
            tree.wf(),
        ensures
            final(self).wf(),
            final(self)@ == old(self)@.ended(tree@, ending),
    {
        let ghost model = tree@;
        proof {
            tree.lemma_wf();
        }
        let name = tree.tree.name.clone();
        let versioned = tree.tree.state.root(false).versioned;
        let held = match self.trees.get(name.as_str()) {
            Some(slot) => slot.file_id == tree.tree.file_id && slot.versioned == versioned,
            None => false,
        };
        assert(held == self@.holds(model));
        if held {
            if let Some(slot) = self.trees.remove(name.as_str()) {
                let slot = slot.ended(tree, ending);
                proof {
                    slot.lemma_wf();
                }
                self.trees.insert(name.as_str(), slot);
                assert(self@ =~= old(self)@.ended(model, ending));
                assert(self@.consistent());
            }
        }
    }

    /// Ends a transaction for each of its trees.
    fn end_trees(&mut self, trees: Vec<TransactionTree>, ending: Ending)
        requires
            old(self).wf(),
            pool::all_wf(trees@),
        ensures
            final(self).wf(),
            final(self)@ == old(self)@.all_ended(
                pool::all_trees(trees@),
                ending,
                trees@.len(),
            ),
    {
        let ghost all = trees@;
        let ghost models = pool::all_trees(trees@);
        let mut rest = trees;
        let ghost mut done: nat = 0;
        while rest.len() > 0
            invariant
                self.wf(),
                pool::all_wf(all),
                models == pool::all_trees(all),
                done + rest@.len() == all.len(),
                forall|i: int| 0 <= i < rest@.len() ==> #[trigger] rest@[i] == all[i + done],
                self@ == old(self)@.all_ended(models, ending, done),
            decreases rest@.len(),
        {
            assert(rest@[0] == all[done as int]);
            let tree = rest.remove(0);
            self.end_tree(tree, ending);
            proof {
                done = done + 1;
            }
        }
    }

    /// Opens the database at `path`, where `found` was found, on what is stored.
    /// Where nothing was found the directory is to be made first.
    pub(crate) fn open(
        path: String,
        context: Context,
        storage: AnyFileManager,
        thread_pool: ThreadPool,
        found: PathKind,
    ) -> (result: Result<Roots, Error>)
        requires
            storage.wf(),
        ensures
            match result {
                Ok(roots) => {
                    &&& found != PathKind::Other
                    &&& roots.wf()
                    &&& roots@ == RootsModel::opened_on(
                        path@,
                        context,
                        storage@,
                        thread_pool@,
                    )
                },
                Err(error) => {
                    &&& found == PathKind::Other
                    &&& error.kind matches ErrorKind::Message(message) && message@
                        == not_a_directory(shown_path(path@))
                },
            },
    {
        if found == PathKind::Other {
            let shown = show_path(path.as_str());
            return Err(Error::from(directory_message(shown.as_str())));
        }
        let ghost stored = storage@;
        let AnyFileManager { kind: _, trees: files, log, next_file, next_transaction } = storage;
        let mut readable = true;
        let mut i: usize = 0;
        while i < log.len()
            invariant
                i <= log@.len(),
                readable == forall|j: int|
                    0 <= j < i ==> (#[trigger] storage::all_records(log@)[j]).vault
                        == context.vault,
            decreases log@.len() - i,
        {
            assert(storage::all_records(log@)[i as int].vault == log@[i as int].vault);
            if !same_vault(log[i].vault, context.vault) {
                readable = false;
            }
            i = i + 1;
        }
        assert(readable == storage::log_readable(stored.log, context.vault));
        let ghost all = files@;
        let mut files = files;
        let mut trees: Directory<TreeSlot> = Directory::new();
        loop
            invariant
                files.wf(),
                trees.wf(),
                forall|name: Seq<char>| #[trigger] all.contains_key(name) ==> all[name].wf(),
                forall|name: Seq<char>| #[trigger]
                    files@.contains_key(name) ==> all.contains_key(name) && files@[name]
                        == all[name] && !trees@.contains_key(name),
                forall|name: Seq<char>| #[trigger]
                    trees@.contains_key(name) ==> {
                        &&& all.contains_key(name)
                        &&& trees@[name].wf()
                        &&& trees@[name]@ == RootsModel::slot_of(all[name]@, readable)
                    },
                forall|name: Seq<char>| #[trigger]
                    all.contains_key(name) ==> files@.contains_key(name) || trees@.contains_key(
                        name,
                    ),
            ensures
                files@ == Map::<Seq<char>, StoredTree>::empty(),
            decreases files@.dom().len(),
        {
            match files.pop() {
                None => {
                    break;
                },
                Some((name, tree)) => {
                    let StoredTree { versioned, file_id, sealed, contents } = tree;
                    let slot = if readable {
                        TreeSlot {
                            versioned,
                            file_id,
                            sealed,
                            state: State::new(contents),
                            hidden: None,
                        }
                    } else {
                        TreeSlot {
                            versioned,
                            file_id,
                            sealed,
                            state: State::new(TreeState::new(versioned)),
                            hidden: Some(contents),
                        }
                    };
                    trees.insert(name.as_str(), slot);
                },
            }
        }
        let roots = Roots {
            path,
            context,
            trees,
            kinds: Directory::new(),
            locks: Directory::new(),
            log,
            next_transaction,
            next_file,
            thread_pool,
        };
        proof {
            let expected = RootsModel::opened_on(path@, context, stored, thread_pool@);
            assert(roots@.trees =~= expected.trees);
            assert forall|name: Seq<char>| #[trigger] roots@.trees.contains_key(name) implies {
                &&& roots@.trees[name].consistent()
                &&& roots@.readable() ==> roots@.trees[name].stored == roots@.trees[name].published
            } by {
                roots.trees@[name].lemma_wf();
            }
        }
        Ok(roots)
    }

    /// Closes the database. What it has stored can be opened again. Transactions
    /// that are still executing are lost.
    pub fn close(self) -> (storage: AnyFileManager)
        requires
            self.wf(),
        ensures
            storage.wf(),
            storage@ == self@.storage(),
    {
        let ghost model = self@.storage();
        let Roots {
            path: _,
            context,
            trees,
            kinds: _,
            locks: _,
            log,
            next_transaction,
            next_file,
            thread_pool: _,
        } = self;
        let ghost all = trees@;
        let mut slots = trees;
        let mut files: Directory<StoredTree> = Directory::new();
        loop
            invariant
                files.wf(),
                slots.wf(),
                forall|name: Seq<char>| #[trigger] all.contains_key(name) ==> all[name].wf(),
                forall|name: Seq<char>| #[trigger]
                    slots@.contains_key(name) ==> all.contains_key(name) && slots@[name]
                        == all[name] && !files@.contains_key(name),
                forall|name: Seq<char>| #[trigger]
                    files@.contains_key(name) ==> {
                        &&& all.contains_key(name)
                        &&& files@[name].wf()
                        &&& files@[name]@ == (StoredTreeModel {
                            versioned: all[name]@.versioned,
                            file_id: all[name]@.file_id,
                            sealed: all[name]@.sealed,
                            contents: all[name]@.stored,
                        })
                    },
                forall|name: Seq<char>| #[trigger]
                    all.contains_key(name) ==> files@.contains_key(name) || slots@.contains_key(
                        name,
                    ),
            ensures
                slots@ == Map::<Seq<char>, TreeSlot>::empty(),
            decreases slots@.dom().len(),
        {
            match slots.pop() {
                None => {
                    break;
                },
                Some((name, slot)) => {
                    let contents = match slot.hidden {
                        Some(stored) => stored,
                        None => slot.state.into_published(),
                    };
                    files.insert(
                        name.as_str(),
                        StoredTree {
                            versioned: slot.versioned,
                            file_id: slot.file_id,
                            sealed: slot.sealed,
                            contents,
                        },
                    );
                },
            }
        }
        let storage = AnyFileManager {
            kind: context.file_manager,
            trees: files,
            log,
            next_file,
            next_transaction,
        };
        assert(storage@.trees =~= model.trees);
        storage
    }

    /// Returns the path to the database directory.
    #[must_use]
    pub fn path(&self) -> (path: &str)
        ensures
            path@ == self@.path,
    {
        self.path.as_str()
    }

    /// Returns what this database works with: the vault used to encrypt it, its
    /// cache, and where its files are kept.
    pub fn context(&self) -> (context: &Context)
        ensures
            *context == self@.context,
    {
        &self.context
    }

    /// Returns the log of the transactions of this database.
    #[must_use]
    pub fn transactions(&self) -> (log: &Vec<LogRecord>)
        ensures
            storage::all_records(log@) == self@.log,
    {
        &self.log
    }

    /// Whether the tree of `root` has not been asked for as one of another kind.
    pub fn agrees_with(&self, root: &TreeRoot) -> (agrees: bool)
        requires
            self.wf(),
        ensures
            agrees == self@.agrees(root@),
    {
        match self.kinds.get(root.name.as_str()) {
            Some(versioned) => *versioned == root.versioned,
            None => true,
        }
    }

    /// The path of the file of the tree `name`.
    pub fn tree_path(&self, name: &str) -> (tree_path: TreePath)
        ensures
            is_tree_path(tree_path, self@.path, name@),
    {
        TreePath { directory: self.path.clone(), file: tree_file_name(name) }
    }

    /// Removes a tree. Returns true if a tree was deleted. A transaction that holds the
    /// tree goes on to hold its name.
    pub fn delete_tree(&mut self, name: &str) -> (result: Result<bool, Error>)
        requires
            old(self).wf(),
        ensures
            final(self).wf(),
            final(self)@ == old(self)@.deleted(name@),
            result matches Ok(deleted) && deleted == old(self)@.trees.contains_key(name@),
    {
        let removed = self.trees.remove(name);
        let _ = self.kinds.remove(name);
        assert(self@ =~= old(self)@.deleted(name@));
        assert(self@.consistent());
        Ok(removed.is_some())
    }

    /// Returns a list of all the names of trees contained in this database. `files` are
    /// the names of the files in its directory: they tell the trees of a database that
    /// is kept in the file system.
    pub fn tree_names(&self, files: &Vec<String>) -> (result: Result<Vec<String>, Error>)
        requires
            self.wf(),
        ensures
            result matches Ok(found) && match self@.context.file_manager {
                StorageKind::FileSystem => names::all_chars(found@) == names::trees_of_files(
                    names::all_chars(files@),
                ),
                StorageKind::Memory => {
                    &&& names::all_chars(found@).no_duplicates()
                    &&& forall|name: Seq<char>| #[trigger]
                        names::all_chars(found@).contains(name) <==> self@.trees.contains_key(name)
                },
            },
    {
        match self.context.file_manager {
            StorageKind::FileSystem => Ok(tree_names_in(files)),
            StorageKind::Memory => Ok(self.trees.names()),
        }
    }

    /// Checks that the trees of `roots` may be named as they are.
    fn check_names(roots: &[TreeRoot]) -> (result: Result<(), Error>)
        ensures
            match result {
                Ok(()) => forall|i: int|
                    0 <= i < roots@.len() ==> names::valid_name(
                        (#[trigger] all_roots(roots@)[i]).name,
                    ),
                Err(error) => {
                    &&& error.kind is InvalidTreeName
                    &&& exists|i: int|
                        0 <= i < roots@.len() && !names::valid_name(
                            (#[trigger] all_roots(roots@)[i]).name,
                        )
                },
            },
    {
        let mut i: usize = 0;
        while i < roots.len()
            invariant
                i <= roots@.len(),
                forall|j: int|
                    0 <= j < i ==> names::valid_name((#[trigger] all_roots(roots@)[j]).name),
            decreases roots@.len() - i,
        {
            assert(all_roots(roots@)[i as int].name == roots@[i as int].name@);
            match check_name(roots[i].name.as_str()) {
                Ok(()) => {},
                Err(error) => {
                    return Err(error);
                },
            }
            i = i + 1;
        }
        Ok(())
    }

    /// Whether some tree is named twice.
    fn is_repeated(roots: &[TreeRoot]) -> (repeated: bool)
        ensures
            repeated == RootsModel::repeated(all_roots(roots@)),
    {
        let ghost models = all_roots(roots@);
        let mut i: usize = 0;
        while i < roots.len()
            invariant
                i <= roots@.len(),
                models == all_roots(roots@),
                forall|a: int, b: int|
                    0 <= a < b < i ==> (#[trigger] models[a]).name != (#[trigger] models[b]).name,
            decreases roots@.len() - i,
        {
            let name = roots[i].name.as_str();
            assert(models[i as int].name == name@);
            let mut j: usize = 0;
            while j < i
                invariant
                    j <= i < roots@.len(),
                    models == all_roots(roots@),
                    name@ == models[i as int].name,
                    forall|a: int| 0 <= a < j ==> (#[trigger] models[a]).name != name@,
                decreases i - j,
            {
                assert(models[j as int].name == roots@[j as int].name@);
                if same_name(roots[j].name.as_str(), name) {
                    assert(models[j as int].name == models[i as int].name);
                    return true;
                }
                j = j + 1;
            }
            i = i + 1;
        }
        false
    }

    /// Whether some tree of `roots` is held by a transaction.
    fn is_held(&self, roots: &[TreeRoot]) -> (held: bool)
        requires
            self.wf(),
        ensures
            held == self@.held(all_roots(roots@)),
    {
        let ghost models = all_roots(roots@);
        let mut i: usize = 0;
        while i < roots.len()
            invariant
                self.wf(),
                i <= roots@.len(),
                models == all_roots(roots@),
                forall|a: int| 0 <= a < i ==> !self@.holds_lock((#[trigger] models[a]).name),
            decreases roots@.len() - i,
        {
            let name = roots[i].name.as_str();
            assert(models[i as int].name == name@);
            if self.locks.contains(name) {
                assert(self@.holds_lock(models[i as int].name));
                return true;
            }
            i = i + 1;
        }
        false
    }

    /// Opens the tree of `root` for transaction number `id`. Its file is made if there
    /// is none.
    fn open_for_write(&mut self, root: &TreeRoot, id: TransactionId) -> (result: Result<
        UnlockedTransactionTree,
        Error,
    >)
        requires
            old(self).wf(),
        ensures
            final(self).wf(),
            final(self)@ == old(self)@.with_file(root@),
            match result {
                Ok(tree) => {
                    &&& old(self)@.refusal(root@) is None
                    &&& tree.wf()
                    &&& tree@ == final(self)@.opened(root@, id)
                },
                Err(error) => {
                    &&& old(self)@.refusal(root@) matches Some(why) && is_refusal(error, why)
                    &&& final(self)@ == old(self)@
                },
            },
    {
        self.make_file(root);
        let context = self.context.with_any_vault(root.vault);
        match self.trees.get(root.name.as_str()) {
            Some(slot) => {
                assert(self@.trees[root@.name] == slot@);
                if let Some(why) = slot.refusal(root.versioned, context.vault) {
                    return Err(refusal_error(why));
                }
                let tree = TreeFile {
                    name: root.name.clone(),
                    file_id: slot.file_id,
                    vault: context.vault,
                    written: false,
                    state: slot.state.duplicate(),
                };
                Ok(UnlockedTransactionTree(TransactionTree { transaction_id: id, tree }))
            },
            None => {
                assert(!self@.trees.contains_key(root@.name));
                Err(Error::from(ErrorKind::FileNotFound))
            },
        }
    }

    /// Begins a transaction over `trees`. All trees will be exclusively accessible
    /// by the transaction.
    ///
    /// ## Errors
    ///
    /// - [`ErrorKind::InvalidTreeName`]: A tree name contained an invalid character.
    /// - [`ErrorKind::TreeNamedTwice`]: A tree is named twice.
    /// - [`ErrorKind::TreeLocked`]: Another transaction holds one of the trees.
    /// - [`ErrorKind::VaultMismatch`]: The file of a tree was written under another
    ///   vault.
    /// - [`ErrorKind::KindMismatch`]: The file of a tree was written as a tree of
    ///   another kind.
    pub fn transaction(&mut self, trees: &[TreeRoot]) -> (result: Result<
        ExecutingTransaction,
        Error,
    >)
        requires
            old(self).wf(),
            forall|i: int|
                0 <= i < trees@.len() ==> old(self)@.agrees(#[trigger] all_roots(trees@)[i]),
        ensures
            final(self).wf(),
            begin_result(*old(self), all_roots(trees@), result, *final(self)),
    {
        let ghost start = self@;
        let ghost roots = all_roots(trees@);
        match Self::check_names(trees) {
            Ok(()) => {},
            Err(error) => {
                return Err(error);
            },
        }
        if Self::is_repeated(trees) {
            return Err(Error::from(ErrorKind::TreeNamedTwice));
        }
        if self.is_held(trees) {
            return Err(Error::from(ErrorKind::TreeLocked));
        }
        let id: TransactionId = self.next_transaction;
        self.next_transaction = following(id);
        assert(self@ =~= start.numbered());
        assert(self@.consistent());
        let mut k: usize = 0;
        while k < trees.len()
            invariant
                self.wf(),
                roots == all_roots(trees@),
                k <= trees@.len(),
                self@ == start.numbered().with_kinds(roots, k as nat),
            decreases trees@.len() - k,
        {
            assert(roots[k as int] == trees@[k as int]@);
            self.note_kind(&trees[k]);
            k = k + 1;
        }
        let ghost asked = self@;
        proof {
            start.numbered().lemma_with_kinds(roots, roots.len());
        }
        let mut opened: Vec<UnlockedTransactionTree> = Vec::new();
        let mut tree_names: Vec<String> = Vec::new();
        let mut held_names: Vec<String> = Vec::new();
        let mut i: usize = 0;
        while i < trees.len()
            invariant
                self.wf(),
                roots == all_roots(trees@),
                i <= trees@.len(),
                id == start.next_transaction,
                start == old(self)@,
                asked == start.numbered().with_kinds(roots, roots.len()),
                asked == (RootsModel { kinds: asked.kinds, ..start.numbered() }),
                self@ == asked.with_files(roots, i as nat),
                !start.blocked(roots),
                forall|j: int| 0 <= j < roots.len() ==> names::valid_name(
                    (#[trigger] roots[j]).name,
                ),
                forall|j: int| 0 <= j < i ==> start.refusal(#[trigger] roots[j]) is None,
                opened@.len() == i,
                tree_names@.len() == i,
                held_names@.len() == i,
                forall|j: int| 0 <= j < i ==> (#[trigger] tree_names@[j])@ == roots[j].name,
                forall|j: int| 0 <= j < i ==> (#[trigger] held_names@[j])@ == roots[j].name,
                forall|j: int| 0 <= j < i ==> (#[trigger] opened@[j]).wf(),
                forall|j: int|
                    0 <= j < i ==> (#[trigger] opened@[j])@ == asked.with_files(
                        roots,
                        (j + 1) as nat,
                    ).opened(roots[j], id),
            decreases trees@.len() - i,
        {
            let root = &trees[i];
            proof {
                assert(roots[i as int] == root@);
                lemma_apart(start, roots);
                asked.lemma_file_at(roots, i as int, (i + 1) as nat);
                assert(self@.refusal(root@) == start.refusal(root@)) by {
                    asked.lemma_with_files(roots, i as nat, root@.name);
                }
            }
            match self.open_for_write(root, id) {
                Ok(tree) => {
                    opened.push(tree);
                    tree_names.push(root.name.clone());
                    held_names.push(root.name.clone());
                },
                Err(error) => {
                    proof {
                        let why = start.refusal(root@)->0;
                        assert(start.first_refusal(roots, i as int, why));
                        assert(self@ == start.prepared(roots, i as nat));
                    }
                    return Err(error);
                },
            }
            i = i + 1;
        }
        let ghost made = self@;
        let ghost count = roots.len();
        let mut n: usize = 0;
        assert(self@ =~= made.locking(roots, 0, id));
        while n < trees.len()
            invariant
                self.wf(),
                roots == all_roots(trees@),
                n <= trees@.len(),
                self@ == made.locking(roots, n as int, id),
            decreases trees@.len() - n,
        {
            let name = trees[n].name.as_str();
            assert(roots[n as int].name == name@);
            self.locks.insert(name, id);
            proof {
                assert forall|other: Seq<char>| #[trigger]
                    RootsModel::named(roots, n + 1, other) <==> RootsModel::named(
                        roots,
                        n as int,
                        other,
                    ) || other == name@ by {
                    if RootsModel::named(roots, n as int, other) {
                        let j = choose|j: int| 0 <= j < n && (#[trigger] roots[j]).name == other;
                        assert(0 <= j < n + 1 && roots[j].name == other);
                    }
                }
                assert(self@ =~= made.locking(roots, n + 1, id));
                assert(self@.consistent());
            }
            n = n + 1;
        }
        let entry = LogEntry::new(id, tree_names);
        let hold = Hold { id, names: held_names };
        let transaction = ExecutingTransaction::new(hold, entry, opened);
        proof {
            let expected = start.transaction_over(roots);
            assert(transaction@.entry.trees =~= expected.entry.trees);
            assert(transaction@.hold.names =~= expected.hold.names);
            lemma_apart(start, roots);
            assert forall|j: int| 0 <= j < count implies transaction@.trees[j]
                == #[trigger] expected.trees[j] by {
                asked.lemma_file_at(roots, j, count);
                asked.lemma_file_at(roots, j, (j + 1) as nat);
                asked.lemma_with_files(roots, (j + 1) as nat, roots[j].name);
                asked.lemma_with_files(roots, count, roots[j].name);
            }
            assert(transaction@.trees =~= expected.trees);
            assert forall|k: int, why: Refusal| !start.first_refusal(roots, k, why) by {}
        }
        Ok(transaction)
    }
}

/// Trees over which a transaction can begin have different names.
pub proof fn lemma_apart(roots: RootsModel, trees: Seq<RootModel>)
    requires
        !roots.blocked(trees),
    ensures
        forall|a: int, b: int|
            0 <= a < b < trees.len() ==> (#[trigger] trees[a]).name != (#[trigger] trees[b]).name,
{
}

/// `error` is what a file that cannot be opened is answered with.
pub open spec fn is_refusal(error: Error, why: Refusal) -> bool {
    match why {
        Refusal::Vault => error.kind is VaultMismatch,
        Refusal::Kind => error.kind is KindMismatch,
    }
}

/// The error for a file that cannot be opened.
fn refusal_error(why: Refusal) -> (error: Error)
    ensures
        is_refusal(error, why),
{
    match why {
        Refusal::Vault => Error::from(ErrorKind::VaultMismatch),
        Refusal::Kind => Error::from(ErrorKind::KindMismatch),
    }
}

/// A tree whose file was opened to be read.
pub struct TreeReader {
    name: String,
    file_id: u64,
}

impl TreeReader {
    /// The name of the tree.
    pub closed spec fn tree(&self) -> Seq<char> {
        self.name@
    }

    /// The file that was opened.
    pub closed spec fn file(&self) -> u64 {
        self.file_id
    }
}

impl Roots {
    /// Opens the file of the tree of `root` to read it. The vault of the tree's own
    /// comes before that of the database.
    pub fn open_for_read(&self, root: &TreeRoot) -> (result: Result<TreeReader, Error>)
        requires
            self.wf(),
        ensures
            match result {
                Ok(reader) => {
                    &&& self@.read(root@) is Seen
                    &&& reader.tree() == root@.name
                    &&& reader.file() == self@.trees[root@.name].file_id
                },
                Err(error) => match self@.read(root@) {
                    Reading::Missing => error.kind is FileNotFound,
                    Reading::Refused(why) => is_refusal(error, why),
                    Reading::Seen(_) => false,
                },
            },
    {
        let context = self.context.with_any_vault(root.vault);
        match self.trees.get(root.name.as_str()) {
            Some(slot) => {
                assert(self@.trees[root@.name] == slot@);
                match slot.refusal(root.versioned, context.vault) {
                    Some(why) => Err(refusal_error(why)),
                    None => Ok(TreeReader { name: root.name.clone(), file_id: slot.file_id }),
                }
            },
            None => {
                assert(!self@.trees.contains_key(root@.name));
                Err(Error::from(ErrorKind::FileNotFound))
            },
        }
    }

    /// What readers see of a tree whose file was opened.
    ///
    /// ## Errors
    ///
    /// - [`ErrorKind::TreeCompacted`]: The tree was compacted since, or deleted and
    ///   made again.
    /// - [`ErrorKind::FileNotFound`]: The tree was deleted since.
    pub fn read(&self, reader: &TreeReader) -> (result: Result<&TreeState, Error>)
        requires
            self.wf(),
        ensures
            match result {
                Ok(state) => {
                    &&& self@.trees.contains_key(reader.tree())
                    &&& self@.trees[reader.tree()].file_id == reader.file()
                    &&& state.wf()
                    &&& state@ == self@.trees[reader.tree()].published
                },
                Err(error) => if self@.trees.contains_key(reader.tree()) {
                    &&& self@.trees[reader.tree()].file_id != reader.file()
                    &&& error.kind is TreeCompacted
                } else {
                    error.kind is FileNotFound
                },
            },
    {
        match self.trees.get(reader.name.as_str()) {
            Some(slot) => {
                assert(self@.trees[reader.name@] == slot@);
                if slot.file_id == reader.file_id {
                    Ok(slot.state.root(false))
                } else {
                    Err(Error::from(ErrorKind::TreeCompacted))
                }
            },
            None => {
                assert(!self@.trees.contains_key(reader.name@));
                Err(Error::from(ErrorKind::FileNotFound))
            },
        }
    }

    /// The latest state of the tree `name`, with what `executing` has changed, where
    /// that transaction holds the tree.
    pub(crate) fn latest<'a>(
        &'a self,
        name: &str,
        executing: Option<&'a ExecutingTransaction>,
    ) -> (state: Option<&'a TreeState>)
        requires
            self.wf(),
            executing matches Some(transaction) ==> transaction.wf(),
        ensures
            match state {
                Some(state) => state.wf() && self@.latest(name@, transaction::model_of(executing))
                    == Some(state@),
                None => self@.latest(name@, transaction::model_of(executing)) is None,
            },
    {
        match self.trees.get(name) {
            Some(slot) => {
                assert(self@.trees[name@] == slot@);
                if let Some(transaction) = executing {
                    if let Some(tree) = transaction.tree_named(name) {
                        proof {
                            tree.lemma_wf();
                        }
                        let versioned = tree.tree.state.root(false).versioned;
                        assert(self@.holds(tree@) == (slot.file_id == tree@.file_id
                            && slot.versioned == versioned));
                        if slot.file_id == tree.tree.file_id && slot.versioned == versioned {
                            return Some(tree.tree.state.root(true));
                        }
                    }
                }
                Some(slot.state.root(true))
            },
            None => {
                assert(!self@.trees.contains_key(name@));
                None
            },
        }
    }

    /// Rewrites the file of the tree `name`.
    pub(crate) fn compact_tree(&mut self, name: &str) -> (result: Result<(), Error>)
        requires
            old(self).wf(),
            old(self)@.trees.contains_key(name@),
        ensures
            final(self).wf(),
            match result {
                Ok(()) => {
                    &&& !old(self)@.holds_lock(name@)
                    &&& final(self)@ == old(self)@.compacted(name@)
                },
                Err(error) => {
                    &&& old(self)@.holds_lock(name@)
                    &&& error.kind is TreeLocked
                    &&& final(self)@ == old(self)@
                },
            },
    {
        if self.locks.contains(name) {
            return Err(Error::from(ErrorKind::TreeLocked));
        }
        if let Some(slot) = self.trees.remove(name) {
            let mut slot = slot;
            slot.file_id = self.next_file;
            proof {
                slot.lemma_wf();
            }
            self.trees.insert(name, slot);
            self.next_file = following(self.next_file);
        }
        assert(self@ =~= old(self)@.compacted(name@));
        assert(self@.consistent());
        Ok(())
    }
}

/// What comes of beginning a transaction over the trees of `roots`.
pub open spec fn begin_result(
    before: Roots,
    roots: Seq<RootModel>,
    result: Result<ExecutingTransaction, Error>,
    after: Roots,
) -> bool {
    let named = forall|i: int|
        0 <= i < roots.len() ==> names::valid_name((#[trigger] roots[i]).name);
    match result {
        Ok(transaction) => {
            &&& named
            &&& !before@.blocked(roots)
            &&& forall|i: int|
                0 <= i < roots.len() ==> before@.refusal(#[trigger] roots[i]) is None
            &&& transaction.wf()
            &&& transaction@ == before@.transaction_over(roots)
            &&& after@ == before@.begun(roots)
        },
        Err(error) => match error.kind {
            ErrorKind::InvalidTreeName => !named && after@ == before@,
            ErrorKind::TreeNamedTwice => {
                &&& named
                &&& RootsModel::repeated(roots)
                &&& after@ == before@
            },
            ErrorKind::TreeLocked => {
                &&& named
                &&& !RootsModel::repeated(roots)
                &&& before@.held(roots)
                &&& after@ == before@
            },
            ErrorKind::VaultMismatch => named && begin_refusal(
                before@,
                roots,
                Refusal::Vault,
                after@,
            ),
            ErrorKind::KindMismatch => named && begin_refusal(
                before@,
                roots,
                Refusal::Kind,
                after@,
            ),
            _ => false,
        },
    }
}

/// What becomes of a database in which a transaction over the trees of `roots` cannot
/// begin, because a file cannot be opened, and `why`.
pub open spec fn begin_refusal(
    before: RootsModel,
    roots: Seq<RootModel>,
    why: Refusal,
    after: RootsModel,
) -> bool {
    &&& !before.blocked(roots)
    &&& exists|k: int| #[trigger]
        before.first_refusal(roots, k, why) && after == before.prepared(roots, k as nat)
}

/// What comes of committing `transaction`. Each of its trees is written, once. If all have
/// been written, and only then, it is pushed to the log. If that was done too, readers see
/// the changes, and otherwise they do not.
pub open spec fn commit_result<M: FileManager>(
    before: RootsModel,
    files_before: M,
    transaction: TransactionModel,
    result: Result<(), Error>,
    after: RootsModel,
    files_after: M,
) -> bool {
    &&& files::recorded(files_before, transaction.trees, transaction.entry, result, files_after)
    &&& after == match result {
        Ok(()) => before.committed(transaction),
        Err(_) => before.uncommitted(transaction),
    }
}

impl ExecutingTransaction {
    /// Commits the transaction in `roots`, the database that it was begun in. Each tree
    /// is written to `files`, and once all have been written, the transaction is pushed
    /// to the log. Once this function has returned successfully, all data updates can be
    /// accessed by all other readers. If writing or pushing fails, its error is returned,
    /// and readers do not see the changes, but the next transaction over a tree starts
    /// from what this one has left of it. `thread_count` is the number of threads that
    /// all who share the pool of the database have started together.
    pub fn commit<M: FileManager>(
        self,
        roots: &mut Roots,
        thread_count: &mut u16,
        files: &mut M,
    ) -> (result: Result<(), Error>)
        requires
            self.wf(),
            old(roots).wf(),
            old(roots)@.holds_all(self@.hold),
            old(roots)@.pool.serves(self@.trees.len()),
        ensures
            final(roots).wf(),
            *final(thread_count) == old(roots)@.pool.grown(*old(thread_count), self@.trees.len()),
            commit_result(
                old(roots)@,
                *old(files),
                self@,
                result,
                final(roots)@,
                *final(files),
            ),
    {
        let ghost model = self@;
        let (hold, entry, trees) = self.into_parts();
        assert(pool::all_trees(trees@).len() == trees@.len());
        // Have the trees written
        let written = roots.thread_pool.commit_trees(thread_count, trees, files);
        let ghost stored = *files;
        let ghost results = choose|results: Seq<Result<(), Error>>|
            {
                &&& #[trigger] files::all_wrote(*old(files), model.trees, results, stored)
                &&& pool::all_trees(written.trees@) == pool::all_noted(model.trees, results)
                &&& files::first_failure(results, written.failure)
            };
        assert(pool::all_trees(written.trees@).len() == written.trees@.len());
        let ghost failed = written.failure;
        let outcome = match written.failure {
            // Push the transaction to the log.
            None => files.push_entry(&entry),
            Some(error) => Err(error),
        };
        let ghost answer = outcome;
        let committing = CommittingTransaction { hold, entry, handed: Ghost(model.trees) };
        let failure = match outcome {
            Ok(()) => None,
            Err(error) => Some(error),
        };
        proof {
            if files::all_ok(results) {
                if let Some(error) = failed {
                    let i = choose|i: int|
                        0 <= i < results.len() && #[trigger] results[i] == Err::<(), Error>(error);
                    assert(results[i] is Ok);
                }
            }
            files::lemma_all_wrote_len(*old(files), model.trees, results, stored);
            let noted = pool::all_noted(model.trees, results);
            if failure is None {
                assert(noted =~= pool::noted_as(model.trees, true));
            }
            assert(pool::noted_as(noted, false) =~= pool::noted_as(model.trees, false));
            lemma_noted_ends_alike(
                old(roots)@.logged(model.entry),
                model.trees,
                noted,
                Ending::Published,
                model.trees.len(),
            );
            lemma_noted_ends_alike(
                old(roots)@,
                model.trees,
                noted,
                Ending::Kept,
                model.trees.len(),
            );
        }
        let result = committing.finish(roots, written.trees, failure);
        proof {
            if let Ok(unit) = answer {
                assert(unit == ());
            }
            assert(result == answer);
        }
        result
    }

    /// Hands out the trees, to be written elsewhere. [`CommittingTransaction::finish`]
    /// takes them back.
    pub fn start_commit(self) -> (started: (CommittingTransaction, Vec<TransactionTree>))
        requires
            self.wf(),
        ensures
            started.0@ == (CommittingModel {
                hold: self@.hold,
                entry: self@.entry,
                handed: self@.trees,
            }),
            pool::all_wf(started.1@),
            pool::all_trees(started.1@) == self@.trees,
    {
        let (hold, entry, trees) = self.into_parts();
        let handed = Ghost(pool::all_trees(trees@));
        (CommittingTransaction { hold, entry, handed }, trees)
    }

    /// Rolls the transaction back in `roots`, the database that it was begun in.
    pub fn rollback(self, roots: &mut Roots)
        requires
            self.wf(),
            old(roots).wf(),
            old(roots)@.holds_all(self@.hold),
        ensures
            final(roots).wf(),
            final(roots)@ == old(roots)@.rolled_back(self@),
    {
        let ghost model = self@;
        let (hold, _, trees) = self.into_parts();
        let mut trees = trees;
        rollback_tree_states(&mut trees);
        let ghost reset = pool::all_trees(trees@);
        roots.end_trees(trees, Ending::RolledBack);
        proof {
            lemma_rollback_ends_alike(old(roots)@, model.trees, reset, model.trees.len());
        }
        // Now the trees can be let go, freeing up access to them.
        roots.release(&hold);
    }
}

/// Drops the changes of each tree.
fn rollback_tree_states(trees: &mut Vec<TransactionTree>)
    requires
        pool::all_wf(old(trees)@),
    ensures
        pool::all_wf(final(trees)@),
        final(trees)@.len() == old(trees)@.len(),
        forall|i: int|
            0 <= i < old(trees)@.len() ==> (#[trigger] final(trees)@[i])@
                == old(trees)@[i]@.changed(old(trees)@[i]@.published),
{
    let ghost before = trees@;
    let mut i: usize = 0;
    while i < trees.len()
        invariant
            i <= trees@.len(),
            trees@.len() == before.len(),
            pool::all_wf(trees@),
            forall|j: int|
                0 <= j < i ==> (#[trigger] trees@[j])@ == before[j]@.changed(before[j]@.published),
            forall|j: int| i <= j < before.len() ==> #[trigger] trees@[j] == before[j],
        decreases trees@.len() - i,
    {
        trees[i].rollback();
        i = i + 1;
    }
}

/// A transaction whose trees are being written.
pub struct CommittingTransaction {
    hold: Hold,
    entry: LogEntry,
    handed: Ghost<Seq<TransactionTreeModel>>,
}

/// A transaction whose trees are being written, as a mathematical value.
pub struct CommittingModel {
    /// What the transaction holds.
    pub hold: HoldModel,
    /// What will stand in the log.
    pub entry: LogEntryModel,
    /// The trees that were handed out to be written.
    pub handed: Seq<TransactionTreeModel>,
}

impl View for CommittingTransaction {
    type V = CommittingModel;

    closed spec fn view(&self) -> CommittingModel {
        CommittingModel { hold: self.hold@, entry: self.entry@, handed: self.handed@ }
    }
}

impl CommittingTransaction {
    /// What is to be pushed to the log.
    #[must_use]
    pub fn entry(&self) -> (entry: &LogEntry)
        ensures
            entry@ == self@.entry,
    {
        &self.entry
    }

    /// Finishes the commit in `roots`, the database that the transaction was begun in,
    /// once the trees that were handed out have been written and the transaction has
    /// been pushed to the log. If either has failed, `failure` is returned, readers do
    /// not see the changes, and other transactions can begin. They start from what this
    /// one has left of those trees that are given back, which need not be all.
    pub fn finish(
        self,
        roots: &mut Roots,
        trees: Vec<TransactionTree>,
        failure: Option<Error>,
    ) -> (result: Result<(), Error>)
        requires
            old(roots).wf(),
            pool::all_wf(trees@),
            old(roots)@.holds_all(self@.hold),
            match failure {
                None => pool::are_written(self@.handed, trees@),
                Some(_) => pool::are_handed(self@.handed, trees@),
            },
        ensures
            final(roots).wf(),
            match failure {
                None => {
                    &&& result == Ok::<(), Error>(())
                    &&& final(roots)@ == old(roots)@.logged(self@.entry).all_ended(
                        pool::all_trees(trees@),
                        Ending::Published,
                        trees@.len(),
                    ).released(self@.hold)
                },
                Some(error) => {
                    &&& result == Err::<(), Error>(error)
                    &&& final(roots)@ == old(roots)@.all_ended(
                        pool::all_trees(trees@),
                        Ending::Kept,
                        trees@.len(),
                    ).released(self@.hold)
                },
            },
    {
        let CommittingTransaction { hold, entry, handed: _ } = self;
        match failure {
            None => {
                roots.record(entry);
                // Publish the tree states, now that the transaction has been fully
                // recorded.
                roots.end_trees(trees, Ending::Published);
                // Release the locks for the trees, allowing a new transaction to begin.
                roots.release(&hold);
                Ok(())
            },
            Some(error) => {
                roots.end_trees(trees, Ending::Kept);
                roots.release(&hold);
                Err(error)
            },
        }
    }
}

impl Roots {
    /// Pushes an entry to the log.
    fn record(&mut self, entry: LogEntry)
        requires
            old(self).wf(),
        ensures
            final(self).wf(),
            final(self)@ == old(self)@.logged(entry@),
    {
        self.log.push(LogRecord { vault: self.context.vault, entry });
        proof {
            assert(self@.log =~= old(self)@.logged(entry@).log);
            assert(self@ =~= old(self)@.logged(entry@));
            assert forall|name: Seq<char>| #[trigger]
                self@.trees.contains_key(name) && self@.readable() implies self@.trees[name].stored
                == self@.trees[name].published by {
                assert forall|i: int| 0 <= i < old(self)@.log.len() implies (#[trigger] old(
                    self,
                )@.log[i]).vault == self@.context.vault by {
                    assert(self@.log[i] == old(self)@.log[i]);
                }
            }
        }
    }
}

/// Whether it was noted that a tree was written makes no difference to how its
/// transaction ends.
pub proof fn lemma_noted_ends_alike(
    roots: RootsModel,
    trees: Seq<TransactionTreeModel>,
    noted: Seq<TransactionTreeModel>,
    ending: Ending,
    n: nat,
)
    requires
        n <= trees.len(),
        trees.len() == noted.len(),
        forall|i: int|
            0 <= i < trees.len() ==> #[trigger] noted[i] == trees[i].noted(noted[i].written),
    ensures
        roots.all_ended(noted, ending, n) == roots.all_ended(trees, ending, n),
    decreases n,
{
    if n > 0 {
        lemma_noted_ends_alike(roots, trees, noted, ending, (n - 1) as nat);
    }
}

/// What a tree was changed to makes no difference once it is rolled back.
proof fn lemma_rollback_ends_alike(
    roots: RootsModel,
    trees: Seq<TransactionTreeModel>,
    reset: Seq<TransactionTreeModel>,
    n: nat,
)
    requires
        n <= trees.len(),
        trees.len() == reset.len(),
        forall|i: int|
            0 <= i < trees.len() ==> #[trigger] reset[i] == trees[i].changed(trees[i].published),
    ensures
        roots.all_ended(reset, Ending::RolledBack, n) == roots.all_ended(
            trees,
            Ending::RolledBack,
            n,
        ),
    decreases n,
{
    if n > 0 {
        lemma_rollback_ends_alike(roots, trees, reset, (n - 1) as nat);
    }
}

} // verus!
