//! The configuration that a database is opened with.

use vstd::prelude::*;
use crate::database::RootsModel;
use crate::error::{Error, ErrorKind};
use crate::pool::{PoolModel, ThreadPool};
use crate::roots;
use crate::roots::Roots;
use crate::storage::{AnyFileManager, ChunkCache, Context, PathKind, StorageKind, StorageModel};
use crate::tree::Vault;

verus! {

/// A database configuration used to open a database.
#[must_use]
pub struct Config {
    path: String,
    vault: Option<Vault>,
    cache: Option<ChunkCache>,
    file_manager: Option<AnyFileManager>,
    thread_pool: Option<ThreadPool>,
}

/// A database configuration, as a mathematical value.
#[verifier::ext_equal]
pub struct ConfigModel {
    /// The directory of the database.
    pub path: Seq<char>,
    pub vault: Option<Vault>,
    pub cache: Option<ChunkCache>,
    /// What is stored already.
    pub storage: Option<StorageModel>,
    pub pool: Option<PoolModel>,
}

impl ConfigModel {
    /// A configuration with nothing but a path.
    pub open spec fn plain(path: Seq<char>) -> ConfigModel {
        ConfigModel { path, vault: None, cache: None, storage: None, pool: None }
    }

    /// What the database is opened on. Without a file manager nothing is stored yet,
    /// and files are kept in the file system.
    pub open spec fn stored(self) -> StorageModel {
        match self.storage {
            Some(storage) => storage,
            None => StorageModel::empty(StorageKind::FileSystem),
        }
    }

    /// What the database works with.
    pub open spec fn context(self) -> Context {
        Context { file_manager: self.stored().kind, vault: self.vault, cache: self.cache }
    }

    /// The database that is opened, when it gets `pool`.
    pub open spec fn opened(self, pool: PoolModel) -> RootsModel {
        RootsModel::opened_on(self.path, self.context(), self.stored(), pool)
    }
}

impl View for Config {
    type V = ConfigModel;

    closed spec fn view(&self) -> ConfigModel {
        ConfigModel {
            path: self.path@,
            vault: self.vault,
            cache: self.cache,
            storage: match self.file_manager {
                Some(manager) => Some(manager@),
                None => None,
            },
            pool: match self.thread_pool {
                Some(pool) => Some(pool@),
                None => None,
            },
        }
    }
}

impl Config {
    /// What is stored already is well formed.
    #[verifier::type_invariant]
    pub closed spec fn wf(&self) -> bool {
        self.file_manager matches Some(manager) ==> manager.wf()
    }

    /// Creates a new config to open a database located at `path`.
    pub fn new(path: &str) -> (config: Config)
        ensures
            config.wf(),
            config@ == ConfigModel::plain(path@),
    {
        Config {
            path: path.to_owned(),
            vault: None,
            cache: None,
            thread_pool: None,
            file_manager: None,
        }
    }

    /// Returns a default configuration to open a database located at `path`. Its
    /// thread pool has as many threads as there are processors.
    pub fn default_for(path: &str) -> (config: Config)
        ensures
            config.wf(),
            config@ == (ConfigModel {
                cache: Some(ChunkCache { capacity: 2000, max_block_length: 65536 }),
                pool: config@.pool,
                ..ConfigModel::plain(path@)
            }),
            config@.pool matches Some(pool) && pool.maximum >= 1,
    {
        Config {
            path: path.to_owned(),
            vault: None,
            cache: Some(ChunkCache::new(2000, 65536)),
            thread_pool: Some(ThreadPool::default()),
            file_manager: None,
        }
    }

    /// Whether a thread pool has been set.
    #[must_use]
    pub fn has_thread_pool(&self) -> (set: bool)
        ensures
            set == (self@.pool is Some),
    {
        self.thread_pool.is_some()
    }

    /// Sets the file manager. No shared thread pool may have been set before.
    pub fn file_manager(self, file_manager: AnyFileManager) -> (config: Config)
        requires
            self@.pool is None,
            file_manager.wf(),
        ensures
            config.wf(),
            config@ == (ConfigModel { storage: Some(file_manager@), ..self@ }),
    {
        Config {
            path: self.path,
            vault: self.vault,
            cache: self.cache,
            file_manager: Some(file_manager),
            thread_pool: None,
        }
    }

    /// Sets the vault to use for this database.
    pub fn vault(self, vault: Vault) -> (config: Config)
        ensures
            config.wf(),
            config@ == (ConfigModel { vault: Some(vault), ..self@ }),
    {
        proof {
            use_type_invariant(&self);
        }
        let mut config = self;
        config.vault = Some(vault);
        config
    }

    /// Sets the chunk cache to use for this database.
    pub fn cache(self, cache: ChunkCache) -> (config: Config)
        ensures
            config.wf(),
            config@ == (ConfigModel { cache: Some(cache), ..self@ }),
    {
        proof {
            use_type_invariant(&self);
        }
        let mut config = self;
        config.cache = Some(cache);
        config
    }

    /// Uses the `thread_pool` provided instead of creating its own.
    pub fn shared_thread_pool(self, thread_pool: &ThreadPool) -> (config: Config)
        ensures
            config.wf(),
            config@ == (ConfigModel { pool: Some(thread_pool@), ..self@ }),
    {
        proof {
            use_type_invariant(&self);
        }
        let mut config = self;
        config.thread_pool = Some(thread_pool.clone());
        config
    }

    /// Opens the database, or creates one if the target path doesn't exist. `found`
    /// is what was found at the path. Where nothing was found the directory is to be
    /// made first.
    ///
    /// ## Errors
    ///
    /// - [`ErrorKind::Message`]: What was found is not a directory.
    pub fn open(self, found: PathKind) -> (result: Result<Roots, Error>)
        ensures
            match result {
                Ok(roots) => {
                    &&& found != PathKind::Other
                    &&& roots.wf()
                    &&& roots@ == self@.opened(roots@.pool)
                    &&& match self@.pool {
                        Some(pool) => roots@.pool == pool,
                        None => roots@.pool.maximum >= 1,
                    }
                },
                Err(error) => {
                    &&& found == PathKind::Other
                    &&& error.kind matches ErrorKind::Message(message) && message@
                        == roots::not_a_directory(roots::shown_path(self@.path))
                },
            },
    {
        proof {
            use_type_invariant(&self);
        }
        let storage = match self.file_manager {
            Some(manager) => manager,
            None => AnyFileManager::default(),
        };
        let context = Context {
            file_manager: storage.kind,
            vault: self.vault,
            cache: self.cache,
        };
        let thread_pool = match self.thread_pool {
            Some(pool) => pool,
            None => ThreadPool::default(),
        };
        Roots::open(self.path, context, storage, thread_pool, found)
    }
}

impl Clone for Config {
    /// A configuration with a copy of its own of what is stored already.
    fn clone(&self) -> (config: Config)
        ensures
            config.wf(),
            config@ == self@,
    {
        proof {
            use_type_invariant(self);
        }
        let file_manager = match &self.file_manager {
            Some(manager) => Some(manager.duplicate()),
            None => None,
        };
        let thread_pool = match &self.thread_pool {
            Some(pool) => Some(pool.clone()),
            None => None,
        };
        Config {
            path: self.path.clone(),
            vault: self.vault,
            cache: self.cache,
            file_manager,
            thread_pool,
        }
    }
}

} // verus!
