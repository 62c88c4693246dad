//! A database as its users see it.

use nebari::names::check_name;
use nebari::{
    AnyFileManager, Config, Error, ErrorKind, ExecutingTransaction, MemoryFileManager, PathKind,
    Root, Roots, Tree, Unversioned, Vault, Versioned,
};

fn open_on(file_manager: AnyFileManager) -> Roots {
    Config::new("database")
        .file_manager(file_manager)
        .open(PathKind::Missing)
        .unwrap()
}

/// Commits a transaction whose trees and entry can be written.
fn commit(transaction: ExecutingTransaction, roots: &mut Roots) -> Result<(), Error> {
    let mut thread_count = 0;
    transaction.commit(roots, &mut thread_count, &mut MemoryFileManager)
}

fn basic_get_set(file_manager: AnyFileManager) {
    let mut roots = open_on(file_manager);

    let tree = roots.tree(Versioned::tree("test")).unwrap();
    tree.set(&mut roots, b"test".to_vec(), b"value".to_vec(), &mut MemoryFileManager)
        .unwrap();
    let result = tree.get(&roots, b"test").unwrap().expect("key not found");

    assert_eq!(result, b"value");
}

#[test]
fn memory_basic_get_set() {
    basic_get_set(AnyFileManager::memory());
}

#[test]
fn std_basic_get_set() {
    basic_get_set(AnyFileManager::file_system());
}

#[test]
fn basic_transaction_isolation_test() {
    let mut roots = Config::new("database").open(PathKind::Missing).unwrap();
    let tree = roots.tree(Versioned::tree("test")).unwrap();
    tree.set(&mut roots, b"test".to_vec(), b"value".to_vec(), &mut MemoryFileManager)
        .unwrap();

    // Begin a transaction
    let mut transaction = roots
        .transaction(&[Versioned::tree("test")])
        .unwrap();

    // Replace the key with a new value.
    transaction
        .tree::<Versioned>(0)
        .unwrap()
        .deref_mut()
        .set(b"test".to_vec(), b"updated value".to_vec())
        .unwrap();

    // Check that the transaction can read the new value
    let result = transaction
        .tree::<Versioned>(0)
        .unwrap()
        .deref()
        .get(b"test")
        .unwrap()
        .expect("key not found");
    assert_eq!(result, b"updated value");

    // Ensure that existing read-access doesn't see the new value
    let result = tree.get(&roots, b"test").unwrap().expect("key not found");
    assert_eq!(result, b"value");

    // Commit the transaction
    commit(transaction, &mut roots).unwrap();

    // Ensure that the reader now sees the new value
    let result = tree.get(&roots, b"test").unwrap().expect("key not found");
    assert_eq!(result, b"updated value");
}

#[test]
fn basic_transaction_rollback_test() {
    let mut roots = Config::new("database").open(PathKind::Missing).unwrap();
    let tree = roots.tree(Versioned::tree("test")).unwrap();
    tree.set(&mut roots, b"test".to_vec(), b"value".to_vec(), &mut MemoryFileManager)
        .unwrap();

    // Begin a transaction
    let mut transaction = roots
        .transaction(&[Versioned::tree("test")])
        .unwrap();

    // Replace the key with a new value.
    transaction
        .tree::<Versioned>(0)
        .unwrap()
        .deref_mut()
        .set(b"test".to_vec(), b"updated value".to_vec())
        .unwrap();

    // Roll the transaction back
    transaction.rollback(&mut roots);

    // Ensure that the reader still sees the old value
    let result = tree.get(&roots, b"test").unwrap().expect("key not found");
    assert_eq!(result, b"value");

    // Begin a new transaction
    let mut transaction = roots
        .transaction(&[Versioned::tree("test")])
        .unwrap();
    // Check that the transaction has the original value
    let result = transaction
        .tree::<Versioned>(0)
        .unwrap()
        .deref()
        .get(b"test")
        .unwrap()
        .expect("key not found");
    assert_eq!(result, b"value");
}

#[test]
fn std_compact_test_versioned() {
    compact_test::<Versioned>(AnyFileManager::file_system());
}

#[test]
fn std_compact_test_unversioned() {
    compact_test::<Unversioned>(AnyFileManager::file_system());
}

#[test]
fn memory_compact_test_versioned() {
    compact_test::<Versioned>(AnyFileManager::memory());
}

#[test]
fn memory_compact_test_unversioned() {
    compact_test::<Unversioned>(AnyFileManager::memory());
}

#[test]
fn any_compact_test_versioned() {
    compact_test::<Versioned>(AnyFileManager::file_system());
    compact_test::<Versioned>(AnyFileManager::memory());
}

#[test]
fn any_compact_test_unversioned() {
    compact_test::<Unversioned>(AnyFileManager::file_system());
    compact_test::<Unversioned>(AnyFileManager::memory());
}

const OPERATION_COUNT: usize = 256;
const WORKER_COUNT: usize = 4;

/// A worker that performs a series of operations, one at each call.
struct Worker {
    worker: usize,
    relative_id: usize,
    step: usize,
    removed: Option<Vec<u8>>,
}

impl Worker {
    fn done(&self) -> bool {
        self.relative_id == OPERATION_COUNT
    }

    fn perform(&mut self, tree: &Tree, roots: &mut Roots) {
        let absolute_id = (self.worker * OPERATION_COUNT + self.relative_id) as u64;
        let key = absolute_id.to_be_bytes();
        match self.step {
            0 => {
                tree.set(roots, key.to_vec(), key.to_vec(), &mut MemoryFileManager)
                    .unwrap();
            }
            1 => {
                let (value, _) = tree
                    .remove(roots, &key, &mut MemoryFileManager)
                    .unwrap()
                    .ok_or_else(|| panic!("value not found: {:?}", absolute_id))
                    .unwrap();
                let mut read = [0; 8];
                read.copy_from_slice(&value);
                assert_eq!(u64::from_be_bytes(read), absolute_id);
                self.removed = Some(value);
            }
            2 => {
                tree.set(roots, key.to_vec(), key.to_vec(), &mut MemoryFileManager)
                    .unwrap();
            }
            _ => {
                let newer_value = tree
                    .get(roots, &key)
                    .unwrap()
                    .expect("couldn't find found");
                assert_eq!(self.removed.take().unwrap(), newer_value);
            }
        }
        if self.step == 3 {
            self.step = 0;
            self.relative_id += 1;
        } else {
            self.step += 1;
        }
    }
}

fn compact_test<R: Root>(file_manager: AnyFileManager) {
    let mut roots = open_on(file_manager);
    let tree = roots.tree(R::tree("test")).unwrap();
    tree.set(&mut roots, b"foo".to_vec(), b"bar".to_vec(), &mut MemoryFileManager)
        .unwrap();

    // Make a number of workers that will perform a series of operations
    let mut workers = Vec::new();
    for worker in 0..WORKER_COUNT {
        workers.push(Worker {
            worker,
            relative_id: 0,
            step: 0,
            removed: None,
        });
    }

    // Let them take turns, and between any two turns continually execute compaction.
    while workers.iter().any(|worker| !worker.done()) {
        for worker in &mut workers {
            if !worker.done() {
                worker.perform(&tree, &mut roots);
            }
            if tree.count(&roots, None) < (OPERATION_COUNT * WORKER_COUNT) as u64 {
                tree.compact(&mut roots).unwrap();
            }
        }
    }

    assert_eq!(
        tree.count(&roots, None),
        (OPERATION_COUNT * WORKER_COUNT + 1) as u64
    );
}

#[test]
fn name_tests() {
    assert!(check_name("abcdefghijklmnopqrstuvwxyzABCDEFGHIJKLMNOPQRSTUVWXYZ_-.").is_ok());
    assert!(check_name("=").is_err());
    assert!(check_name("_transactions").is_err());
}

#[test]
fn context_encryption_tests() {
    // Encrypt a tree using default encryption via the context
    let stored = {
        let mut roots = Config::new("database")
            .vault(Vault::new(13))
            .open(PathKind::Missing)
            .unwrap();
        let tree = roots.tree(Versioned::tree("test")).unwrap();
        tree.set(&mut roots, b"test".to_vec(), b"value".to_vec(), &mut MemoryFileManager)
            .unwrap();
        let other_tree = roots
            .tree(Versioned::tree("test-otherkey").with_vault(Vault::new(42)))
            .unwrap();
        other_tree
            .set(&mut roots, b"test".to_vec(), b"other".to_vec(), &mut MemoryFileManager)
            .unwrap();
        roots.close()
    };
    // Try to access the tree with the vault again.
    let stored = {
        let mut roots = Config::new("database")
            .file_manager(stored)
            .vault(Vault::new(13))
            .open(PathKind::Directory)
            .unwrap();
        let tree = roots.tree(Versioned::tree("test")).unwrap();
        let value = tree.get(&roots, b"test").unwrap();
        assert_eq!(value.as_deref(), Some(&b"value"[..]));

        // Verify we can't read the other tree without the right vault
        let bad_tree = roots
            .tree(Versioned::tree("test-otherkey"))
            .unwrap();
        assert!(bad_tree.get(&roots, b"test").is_err());

        // And test retrieving the other key with the correct vault
        let tree = roots
            .tree(Versioned::tree("test-otherkey").with_vault(Vault::new(42)))
            .unwrap();
        let value = tree.get(&roots, b"test").unwrap();
        assert_eq!(value.as_deref(), Some(&b"other"[..]));
        roots.close()
    };
    {
        let mut roots = Config::new("database")
            .file_manager(stored)
            .open(PathKind::Directory)
            .unwrap();
        // Try to access roots without the vault.
        let bad_tree = roots.tree(Versioned::tree("test")).unwrap();
        assert!(bad_tree.get(&roots, b"test").is_err());

        // Try to access roots with the vault specified. In this situation, the transaction log will be unreadable, causing itself to not consider any transactions valid.
        let bad_tree = roots
            .tree(Versioned::tree("test").with_vault(Vault::new(13)))
            .unwrap();
        assert_eq!(bad_tree.get(&roots, b"test").unwrap(), None);
    }
}

#[test]
fn too_large_transaction() {
    let config = Config::new("database");
    let stored = {
        let mut roots = config.clone().open(PathKind::Missing).unwrap();

        let mut transaction = roots
            .transaction(&[Versioned::tree("test")])
            .unwrap();

        // Write some data to the tree.
        transaction
            .tree::<Versioned>(0)
            .unwrap()
            .deref_mut()
            .set(b"test".to_vec(), vec![0; 16 * 1024 * 1024])
            .unwrap();

        // Issue a transaction that's too large.
        assert!(matches!(
            transaction
                .entry_mut()
                .set_data(vec![0; 16 * 1024 * 1024 - 7])
                .unwrap_err()
                .kind,
            ErrorKind::ValueTooLarge
        ));
        // Roll the transaction back
        transaction.rollback(&mut roots);
        roots.close()
    };
    // Ensure that we can still write to the tree.
    {
        let mut roots = config
            .file_manager(stored)
            .open(PathKind::Directory)
            .unwrap();

        let mut transaction = roots
            .transaction(&[Versioned::tree("test")])
            .unwrap();

        // Write some data to the tree
        transaction
            .tree::<Versioned>(0)
            .unwrap()
            .deref_mut()
            .set(b"test".to_vec(), b"updated value".to_vec())
            .unwrap();

        commit(transaction, &mut roots).unwrap();
    }
}
