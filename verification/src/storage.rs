//! What a database stores, and what it is opened with.

use vstd::prelude::*;
use crate::directory::Directory;
use crate::model::TreeModel;
use crate::names;
use crate::state::TreeState;
use crate::transaction::{LogEntry, LogEntryModel};
use crate::transaction_tree::TransactionId;
use crate::tree::Vault;

verus! {

/// Where files are kept.
#[derive(Clone, Copy, Debug, PartialEq, Eq, Structural)]
pub enum StorageKind {
    /// In the file system.
    FileSystem,
    /// In memory.
    Memory,
}

/// A cache for chunks that were read, by its limits.
#[derive(Clone, Copy, Debug, PartialEq, Eq, Structural)]
pub struct ChunkCache {
    /// The number of chunks that are kept.
    pub capacity: usize,
    /// The length of the longest chunk that is kept.
    pub max_block_length: usize,
}

impl ChunkCache {
    /// A cache of up to `capacity` chunks that are no longer than
    /// `max_block_length`.
    pub fn new(capacity: usize, max_block_length: usize) -> (cache: ChunkCache)
        ensures
            cache == (ChunkCache { capacity, max_block_length }),
    {
        ChunkCache { capacity, max_block_length }
    }
}

/// What is found where a database is to be opened.
#[derive(Clone, Copy, Debug, PartialEq, Eq, Structural)]
pub enum PathKind {
    /// Nothing.
    Missing,
    /// A directory.
    Directory,
    /// Something that is not a directory.
    Other,
}

/// A tree that is stored.
pub struct StoredTree {
    pub(crate) versioned: bool,
    pub(crate) file_id: u64,
    pub(crate) sealed: Option<Option<Vault>>,
    pub(crate) contents: TreeState,
}

/// A tree that is stored, as a mathematical value.
#[verifier::ext_equal]
pub struct StoredTreeModel {
    pub versioned: bool,
    /// The file of the tree.
    pub file_id: u64,
    /// The vault under which the file was written, once it has been.
    pub sealed: Option<Option<Vault>>,
    pub contents: TreeModel,
}

impl View for StoredTree {
    type V = StoredTreeModel;

    open(crate) spec fn view(&self) -> StoredTreeModel {
        StoredTreeModel {
            versioned: self.versioned,
            file_id: self.file_id,
            sealed: self.sealed,
            contents: self.contents@,
        }
    }
}

impl StoredTree {
    /// The contents are well formed and of the kind of the tree. A file that was never
    /// written holds nothing.
    pub open(crate) spec fn wf(&self) -> bool {
        &&& self.contents.wf()
        &&& self.contents@.versioned == self.versioned
        &&& self.sealed is None ==> self.contents@ == TreeModel::empty(self.versioned)
    }
}

/// An entry of the log, with the vault under which it was written.
pub struct LogRecord {
    pub vault: Option<Vault>,
    pub entry: LogEntry,
}

/// An entry of the log, as a mathematical value.
#[verifier::ext_equal]
pub struct LogRecordModel {
    pub vault: Option<Vault>,
    pub entry: LogEntryModel,
}

impl View for LogRecord {
    type V = LogRecordModel;

    open spec fn view(&self) -> LogRecordModel {
        LogRecordModel { vault: self.vault, entry: self.entry@ }
    }
}

/// The entries of a log, as mathematical values.
pub open spec fn all_records(records: Seq<LogRecord>) -> Seq<LogRecordModel> {
    Seq::new(records.len(), |i: int| records[i]@)
}

/// The log can be read under `vault`.
pub open spec fn log_readable(log: Seq<LogRecordModel>, vault: Option<Vault>) -> bool {
    forall|i: int| 0 <= i < log.len() ==> (#[trigger] log[i]).vault == vault
}

/// Everything that a database stores: the files of its trees and the log of its
/// transactions.
pub struct AnyFileManager {
    pub(crate) kind: StorageKind,
    pub(crate) trees: Directory<StoredTree>,
    pub(crate) log: Vec<LogRecord>,
    pub(crate) next_file: u64,
    pub(crate) next_transaction: TransactionId,
}

/// Everything that a database stores, as a mathematical value.
#[verifier::ext_equal]
pub struct StorageModel {
    pub kind: StorageKind,
    pub trees: Map<Seq<char>, StoredTreeModel>,
    pub log: Seq<LogRecordModel>,
    pub next_file: u64,
    pub next_transaction: TransactionId,
}

impl View for AnyFileManager {
    type V = StorageModel;

    open(crate) spec fn view(&self) -> StorageModel {
        StorageModel {
            kind: self.kind,
            trees: self.trees@.map_values(|tree: StoredTree| tree@),
            log: all_records(self.log@),
            next_file: self.next_file,
            next_transaction: self.next_transaction,
        }
    }
}

impl StorageModel {
    /// Nothing is stored.
    pub open spec fn empty(kind: StorageKind) -> StorageModel {
        StorageModel {
            kind,
            trees: Map::empty(),
            log: Seq::empty(),
            next_file: 0,
            next_transaction: 0,
        }
    }
}

impl AnyFileManager {
    /// Each tree is well formed.
    pub open(crate) spec fn wf(&self) -> bool {
        &&& self.trees.wf()
        &&& forall|name: Seq<char>| #[trigger]
            self.trees@.contains_key(name) ==> self.trees@[name].wf()
    }

    /// A manager that keeps files in the file system.
    pub fn file_system() -> (manager: AnyFileManager)
        ensures
            manager.wf(),
            manager@ == StorageModel::empty(StorageKind::FileSystem),
    {
        let manager = AnyFileManager {
            kind: StorageKind::FileSystem,
            trees: Directory::new(),
            log: Vec::new(),
            next_file: 0,
            next_transaction: 0,
        };
        assert(manager@ =~= StorageModel::empty(StorageKind::FileSystem));
        manager
    }

    /// A manager that keeps files in memory.
    pub fn memory() -> (manager: AnyFileManager)
        ensures
            manager.wf(),
            manager@ == StorageModel::empty(StorageKind::Memory),
    {
        let manager = AnyFileManager {
            kind: StorageKind::Memory,
            trees: Directory::new(),
            log: Vec::new(),
            next_file: 0,
            next_transaction: 0,
        };
        assert(manager@ =~= StorageModel::empty(StorageKind::Memory));
        manager
    }

    /// A copy of everything that is stored.
    pub fn duplicate(&self) -> (copy: AnyFileManager)
        requires
            self.wf(),
        ensures
            copy.wf(),
            copy@ == self@,
    {
        let trees = self.duplicate_trees();
        let log = self.duplicate_log();
        let copy = AnyFileManager {
            kind: self.kind,
            trees,
            log,
            next_file: self.next_file,
            next_transaction: self.next_transaction,
        };
        assert(copy@.trees =~= self@.trees);
        assert(copy@ =~= self@);
        copy
    }

    fn duplicate_trees(&self) -> (trees: Directory<StoredTree>)
        requires
            self.wf(),
        ensures
            trees.wf(),
            forall|name: Seq<char>| #[trigger]
                trees@.contains_key(name) <==> self.trees@.contains_key(name),
            forall|name: Seq<char>| #[trigger]
                trees@.contains_key(name) ==> {
                    &&& trees@[name].wf()
                    &&& trees@[name]@ == self.trees@[name]@
                },
    {
        let names = self.trees.names();
        let ghost chars = names::all_chars(names@);
        let mut trees: Directory<StoredTree> = Directory::new();
        let mut i: usize = 0;
        while i < names.len()
            invariant
                self.wf(),
                i <= names@.len(),
                chars == names::all_chars(names@),
                forall|name: Seq<char>| #[trigger]
                    chars.contains(name) <==> self.trees@.contains_key(name),
                trees.wf(),
                forall|j: int| 0 <= j < i ==> trees@.contains_key(#[trigger] chars[j]),
                forall|name: Seq<char>| #[trigger]
                    trees@.contains_key(name) ==> {
                        &&& self.trees@.contains_key(name)
                        &&& trees@[name].wf()
                        &&& trees@[name]@ == self.trees@[name]@
                    },
            decreases names@.len() - i,
        {
            let name = names[i].as_str();
            assert(chars[i as int] == name@);
            assert(chars.contains(name@));
            if let Some(tree) = self.trees.get(name) {
                trees.insert(
                    name,
                    StoredTree {
                        versioned: tree.versioned,
                        file_id: tree.file_id,
                        sealed: tree.sealed,
                        contents: tree.contents.duplicate(),
                    },
                );
            }
            i = i + 1;
        }
        assert forall|name: Seq<char>| #[trigger] trees@.contains_key(name)
            <==> self.trees@.contains_key(name) by {
            if self.trees@.contains_key(name) {
                assert(chars.contains(name));
                assert(trees@.contains_key(chars[chars.index_of(name)]));
            }
        }
        trees
    }

    fn duplicate_log(&self) -> (log: Vec<LogRecord>)
        ensures
            all_records(log@) == all_records(self.log@),
    {
        let mut log: Vec<LogRecord> = Vec::new();
        let mut i: usize = 0;
        while i < self.log.len()
            invariant
                i <= self.log@.len(),
                log@.len() == i,
                forall|j: int| 0 <= j < i ==> (#[trigger] log@[j])@ == self.log@[j]@,
            decreases self.log@.len() - i,
        {
            let record = &self.log[i];
            log.push(LogRecord { vault: record.vault, entry: record.entry.duplicate() });
            i = i + 1;
        }
        assert(all_records(log@) =~= all_records(self.log@));
        log
    }
}

impl Default for AnyFileManager {
    /// A manager that keeps files in the file system.
    fn default() -> (manager: AnyFileManager)
        ensures
            manager.wf(),
            manager@ == StorageModel::empty(StorageKind::FileSystem),
    {
        AnyFileManager::file_system()
    }
}

/// What a database works with: where its files are kept, the vault that encrypts
/// it and the cache for what was read.
#[derive(Clone, Copy, Debug)]
pub struct Context {
    pub file_manager: StorageKind,
    pub vault: Option<Vault>,
    pub cache: Option<ChunkCache>,
}

impl Context {
    /// The vault for a tree: its own, or else that of the database.
    pub open spec fn vault_for(self, own: Option<Vault>) -> Option<Vault> {
        match own {
            Some(vault) => Some(vault),
            None => self.vault,
        }
    }

    /// The context for a tree: its own vault comes before that of the database.
    pub fn with_any_vault(self, own: Option<Vault>) -> (context: Context)
        ensures
            context == (Context { vault: self.vault_for(own), ..self }),
    {
        match own {
            Some(vault) => Context {
                file_manager: self.file_manager,
                vault: Some(vault),
                cache: self.cache,
            },
            None => self,
        }
    }
}

} // verus!
