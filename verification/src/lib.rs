//! A multi-tree transactional key-value database.
//!
//! A database ([`Roots`](roots::Roots)) is opened from a [`Config`](config::Config). It
//! holds named trees of keys and values, which are read and changed through a
//! [`Tree`](handle::Tree), or together within a transaction
//! ([`ExecutingTransaction`](transaction::ExecutingTransaction)).

pub mod basic_laws;
pub mod bytes;
mod channel;
pub mod config;
pub mod content_laws;
pub mod database;
pub mod database_laws;
pub mod directory;
pub mod error;
pub mod files;
pub mod handle;
pub mod listing;
pub mod model;
pub mod names;
pub mod operation_laws;
pub mod pool;
pub mod query;
pub mod reduce;
pub mod retry;
pub mod roots;
pub mod scan;
pub mod scan_laws;
pub mod sequences;
pub mod state;
pub mod storage;
pub mod transaction;
pub mod transaction_tree;
pub mod tree;
pub mod tree_laws;
pub mod update;
pub mod walk_laws;

pub use config::Config;
pub use error::{AbortError, CompareAndSwapError, Error, ErrorKind};
pub use files::{FileManager, MemoryFileManager};
pub use handle::Tree;
pub use model::{
    Bound, KeyIndex, KeyRange, KeySequence, ModificationResult, Operation, ScanEvaluation,
    SequenceEntry, SequenceId, SequenceIndex, SequenceRange,
};
pub use pool::ThreadPool;
pub use reduce::ReducedIndex;
pub use roots::{CommittingTransaction, Roots};
pub use storage::{AnyFileManager, ChunkCache, Context, PathKind};
pub use transaction::{
    ExecutingTransaction, LockedTransactionTree, LogEntry, UnlockedTransactionTree,
};
pub use transaction_tree::{AnyTransactionTree, TransactionId, TransactionTree};
pub use tree::{Root, TreeRoot, Unversioned, Vault, Versioned};
