//! What a database is opened from, its files, and the parts that it is made of.

use nebari::bytes::{compare_keys, KeyOrder};
use nebari::names::{strip_extension, tree_file_name, tree_names_in};
use nebari::pool::Scaling;
use nebari::reduce::{reduce, rereduce};
use nebari::retry::{catch_compaction_and_retry, catch_compaction_and_retry_abortable};
use nebari::storage::StorageKind;
use nebari::{
    AbortError, AnyFileManager, ChunkCache, Config, Error, ErrorKind, KeyIndex, MemoryFileManager,
    PathKind, ReducedIndex, Root, Roots, ThreadPool, Unversioned, Vault, Versioned,
};

fn bytes(text: &str) -> Vec<u8> {
    text.as_bytes().to_vec()
}

fn database() -> Roots {
    Config::new("database").open(PathKind::Missing).unwrap()
}

#[test]
fn a_file_is_no_database() {
    match Config::new("some/file").open(PathKind::Other) {
        Err(Error {
            kind: ErrorKind::Message(message),
        }) => assert_eq!(
            message,
            "'\"some/file\"' already exists, but is not a directory."
        ),
        _ => panic!("a file was opened"),
    }
}

#[test]
fn configurations() {
    let roots = Config::new("here")
        .vault(Vault::new(7))
        .cache(ChunkCache::new(10, 20))
        .open(PathKind::Directory)
        .unwrap();
    assert_eq!(roots.path(), "here");
    assert_eq!(roots.context().vault.unwrap().number, 7);
    assert_eq!(roots.context().cache.unwrap().capacity, 10);
    assert_eq!(roots.context().cache.unwrap().max_block_length, 20);
    assert_eq!(roots.context().file_manager, StorageKind::FileSystem);

    let config = Config::default_for("there");
    assert!(config.has_thread_pool());
    let roots = config.open(PathKind::Missing).unwrap();
    assert_eq!(roots.context().cache.unwrap().capacity, 2000);
    assert_eq!(roots.context().cache.unwrap().max_block_length, 65536);
    assert!(roots.context().vault.is_none());

    let config = Config::new("there");
    assert!(!config.has_thread_pool());
    let roots = config
        .file_manager(AnyFileManager::memory())
        .open(PathKind::Missing)
        .unwrap();
    assert_eq!(roots.context().file_manager, StorageKind::Memory);
    assert!(roots.context().cache.is_none());
}

#[test]
fn a_vault_of_the_trees_own_comes_first() {
    let roots = Config::new("here")
        .vault(Vault::new(7))
        .open(PathKind::Directory)
        .unwrap();
    let context = roots.context().with_any_vault(Some(Vault::new(8)));
    assert_eq!(context.vault.unwrap().number, 8);
    let context = roots.context().with_any_vault(None);
    assert_eq!(context.vault.unwrap().number, 7);
}

#[test]
fn tree_files() {
    let mut roots = database();
    let tree = roots.tree(Versioned::tree("some.tree")).unwrap();
    assert_eq!(tree.name(), "some.tree");
    let path = tree.path(&roots);
    assert_eq!(path.directory, "database");
    assert_eq!(path.file, "some.tree.nebari");
    assert_eq!(tree_file_name("a"), "a.nebari");
    assert_eq!(strip_extension("a.nebari"), Some("a".to_owned()));
    assert_eq!(strip_extension(".nebari"), Some(String::new()));
    assert_eq!(strip_extension("a.nebar"), None);
    assert_eq!(strip_extension("nebari"), None);
    let files = vec![
        "a.nebari".to_owned(),
        "notes.txt".to_owned(),
        "b.nebari.nebari".to_owned(),
        "_transactions".to_owned(),
    ];
    assert_eq!(tree_names_in(&files), vec!["a", "b.nebari"]);
    assert_eq!(roots.tree_names(&files).unwrap(), vec!["a", "b.nebari"]);
}

#[test]
fn trees_in_memory_are_listed() {
    let mut roots = Config::new("database")
        .file_manager(AnyFileManager::memory())
        .open(PathKind::Missing)
        .unwrap();
    assert_eq!(roots.tree_names(&Vec::new()).unwrap(), Vec::<String>::new());
    roots.tree(Versioned::tree("test")).unwrap();
    roots.tree(Unversioned::tree("other")).unwrap();
    let mut names = roots.tree_names(&vec!["x.nebari".to_owned()]).unwrap();
    names.sort();
    assert_eq!(names, vec!["other", "test"]);
    roots.delete_tree("other").unwrap();
    assert_eq!(roots.tree_names(&Vec::new()).unwrap(), vec!["test"]);
}

#[test]
fn stored_trees_can_be_asked_for_as_another_kind() {
    let mut roots = database();
    let written = roots.tree(Versioned::tree("written")).unwrap();
    written.set(&mut roots, bytes("a"), bytes("1"), &mut MemoryFileManager)
        .unwrap();
    roots.tree(Versioned::tree("empty")).unwrap();
    assert!(!roots.agrees_with(&Unversioned::tree("written")));
    let stored = roots.close();
    let mut roots = Config::new("database")
        .file_manager(stored)
        .open(PathKind::Directory)
        .unwrap();
    assert!(roots.agrees_with(&Unversioned::tree("written")));
    // What was written cannot be read as another kind.
    let other = roots.tree(Unversioned::tree("written")).unwrap();
    assert!(matches!(
        other.get(&roots, b"a").unwrap_err().kind,
        ErrorKind::KindMismatch
    ));
    assert!(matches!(
        other.set(&mut roots, bytes("a"), bytes("2"), &mut MemoryFileManager).unwrap_err().kind,
        ErrorKind::KindMismatch
    ));
    // A tree that was never written is taken as it is asked for.
    let empty = roots.tree(Unversioned::tree("empty")).unwrap();
    empty.set(&mut roots, bytes("a"), bytes("2"), &mut MemoryFileManager)
        .unwrap();
    assert_eq!(empty.get(&roots, b"a").unwrap(), Some(bytes("2")));
    assert_eq!(empty.current_sequence_id(&roots, None), 0);
}

#[test]
fn deleted_trees() {
    let mut roots = database();
    let tree = roots.tree(Unversioned::tree("one")).unwrap();
    let other = roots.tree(Unversioned::tree("two")).unwrap();
    tree.set(&mut roots, bytes("a"), bytes("1"), &mut MemoryFileManager)
        .unwrap();
    other.set(&mut roots, bytes("a"), bytes("2"), &mut MemoryFileManager)
        .unwrap();
    assert!(roots.delete_tree("one").unwrap());
    assert!(!roots.delete_tree("one").unwrap());
    assert_eq!(tree.get(&roots, b"a").unwrap(), None);
    assert_eq!(tree.count(&roots, None), 0);
    assert_eq!(other.get(&roots, b"a").unwrap(), Some(bytes("2")));
    tree.compact(&mut roots).unwrap();
    // A change makes the tree again.
    tree.set(&mut roots, bytes("b"), bytes("3"), &mut MemoryFileManager)
        .unwrap();
    assert_eq!(tree.count(&roots, None), 1);
}

#[test]
fn kinds_are_told_apart() {
    let mut roots = database();
    roots.tree(Versioned::tree("one")).unwrap();
    assert!(roots.agrees_with(&Versioned::tree("one")));
    assert!(!roots.agrees_with(&Unversioned::tree("one")));
    assert!(roots.agrees_with(&Unversioned::tree("two")));
}

#[test]
fn compaction_is_noticed_by_open_readers() {
    let mut roots = database();
    let tree = roots.tree(Versioned::tree("one")).unwrap();
    tree.set(&mut roots, bytes("a"), bytes("1"), &mut MemoryFileManager)
        .unwrap();
    tree.set(&mut roots, bytes("a"), bytes("2"), &mut MemoryFileManager)
        .unwrap();
    let reader = roots.open_for_read(&Versioned::tree("one")).unwrap();
    assert_eq!(roots.read(&reader).unwrap().get(b"a"), Some(bytes("2")));
    tree.compact(&mut roots).unwrap();
    match roots.read(&reader) {
        Err(error) => assert!(matches!(error.kind, ErrorKind::TreeCompacted)),
        Ok(_) => panic!("the file is another"),
    }
    // The tree itself is as it was, with all its changes.
    assert_eq!(tree.get(&roots, b"a").unwrap(), Some(bytes("2")));
    assert_eq!(
        tree.get_multiple_by_sequence(&roots, &[1]).unwrap()[&1].1,
        Some(bytes("1"))
    );
    roots.delete_tree("one").unwrap();
    match roots.read(&reader) {
        Err(error) => assert!(matches!(error.kind, ErrorKind::FileNotFound)),
        Ok(_) => panic!("the file is gone"),
    }
    match roots.open_for_read(&Versioned::tree("one")) {
        Err(error) => assert!(matches!(error.kind, ErrorKind::FileNotFound)),
        Ok(_) => panic!("the file is gone"),
    }
}

#[test]
fn reopened_databases_hold_the_same() {
    let mut roots = database();
    let tree = roots.tree(Versioned::tree("one")).unwrap();
    tree.set(&mut roots, bytes("a"), bytes("1"), &mut MemoryFileManager)
        .unwrap();
    // A transaction that is still executing is lost.
    let mut transaction = roots.transaction(&[tree.root()]).unwrap();
    transaction
        .tree::<Versioned>(0)
        .unwrap()
        .deref_mut()
        .set(bytes("a"), bytes("2"))
        .unwrap();
    let stored = roots.close();
    let mut roots = Config::new("database")
        .file_manager(stored)
        .open(PathKind::Directory)
        .unwrap();
    assert_eq!(tree.get(&roots, b"a").unwrap(), Some(bytes("1")));
    assert_eq!(roots.transactions().len(), 1);
    tree.set(&mut roots, bytes("a"), bytes("3"), &mut MemoryFileManager)
        .unwrap();
    assert_eq!(tree.current_sequence_id(&roots, None), 2);
}

#[test]
fn cloned_configurations_open_the_same() {
    let mut roots = database();
    let tree = roots.tree(Versioned::tree("one")).unwrap();
    tree.set(&mut roots, bytes("a"), bytes("1"), &mut MemoryFileManager)
        .unwrap();
    let mut transaction = roots.transaction(&[Unversioned::tree("two")]).unwrap();
    transaction.entry_mut().set_data(vec![7]).unwrap();
    let mut thread_count = 0;
    transaction
        .commit(&mut roots, &mut thread_count, &mut MemoryFileManager)
        .unwrap();
    let config = Config::new("database")
        .file_manager(roots.close())
        .vault(Vault::new(7))
        .cache(ChunkCache::new(10, 20))
        .shared_thread_pool(&ThreadPool::new(3));
    let clone = config.clone();
    assert!(clone.has_thread_pool());
    let mut first = clone.vault(Vault::new(8)).open(PathKind::Directory).unwrap();
    assert_eq!(first.path(), "database");
    assert_eq!(first.context().vault.unwrap().number, 8);
    assert_eq!(first.context().cache.unwrap().capacity, 10);
    assert_eq!(first.transactions().len(), 2);
    // What becomes of one is no matter to the other.
    assert!(first.delete_tree("one").unwrap());
    let second = config.open(PathKind::Directory).unwrap();
    assert_eq!(second.context().vault.unwrap().number, 7);
    let log = second.transactions();
    assert_eq!(log.len(), 2);
    assert_eq!(log[1].entry.data(), Some(&vec![7]));
    let stored = second.close();
    let reopened = Config::new("database")
        .file_manager(stored)
        .open(PathKind::Directory)
        .unwrap();
    assert_eq!(tree.get(&reopened, b"a").unwrap(), Some(bytes("1")));
}

#[test]
fn listed_trees_have_files() {
    let files = ["one.nebari", "_transactions", "a.b.nebari", "two", "_roots.nebari"]
        .map(str::to_owned)
        .to_vec();
    let names = tree_names_in(&files);
    for file in &files {
        if let Some(name) = strip_extension(file) {
            assert_eq!(&tree_file_name(name.as_str()), file);
            assert_eq!(names.iter().filter(|listed| **listed == name).count(), 1);
        }
    }
}

#[test]
fn keys_are_ordered_by_their_bytes() {
    assert_eq!(compare_keys(b"a", b"b"), KeyOrder::Less);
    assert_eq!(compare_keys(b"b", b"a"), KeyOrder::Greater);
    assert_eq!(compare_keys(b"a", b"a"), KeyOrder::Equal);
    assert_eq!(compare_keys(b"a", b"aa"), KeyOrder::Less);
    assert_eq!(compare_keys(b"", b"a"), KeyOrder::Less);
    assert_eq!(compare_keys(b"b", b"aa"), KeyOrder::Greater);
}

fn of_length(value_length: u64) -> KeyIndex {
    KeyIndex {
        sequence_id: None,
        value_length,
    }
}

#[test]
fn reducing_in_parts() {
    let all = [of_length(1), of_length(20), of_length(300)];
    let whole = reduce(&all);
    assert_eq!(
        whole,
        ReducedIndex {
            alive_keys: 3,
            total_bytes: 321,
        }
    );
    assert_eq!(rereduce(&[reduce(&all[..1]), reduce(&all[1..])]), whole);
    assert_eq!(rereduce(&[reduce(&all), reduce(&[])]), whole);
    // A sum that does not fit is the largest number.
    let large = [of_length(u64::MAX), of_length(1)];
    assert_eq!(reduce(&large).total_bytes, u64::MAX);
}

#[test]
fn reads_are_repeated_after_compaction() {
    let attempts = |attempt: u64| -> Result<u64, Error> {
        if attempt < 3 {
            Err(Error::from(ErrorKind::TreeCompacted))
        } else {
            Ok(attempt)
        }
    };
    assert_eq!(catch_compaction_and_retry(attempts).unwrap(), 3);
    let error = catch_compaction_and_retry(|_| -> Result<(), Error> {
        Err(Error::from(ErrorKind::FileNotFound))
    })
    .unwrap_err();
    assert!(matches!(error.kind, ErrorKind::FileNotFound));

    let attempts = |attempt: u64| -> Result<(), AbortError<u64>> {
        if attempt < 3 {
            Err(AbortError::from(Error::from(ErrorKind::TreeCompacted)))
        } else {
            Err(AbortError::Other(attempt))
        }
    };
    match catch_compaction_and_retry_abortable(attempts) {
        Err(AbortError::Other(attempt)) => assert_eq!(attempt, 3),
        _ => panic!("the error is the caller's"),
    }
}

#[test]
fn infallible_errors_come_from_the_database() {
    let error: AbortError = AbortError::from(Error::from(ErrorKind::InvalidTreeName));
    assert!(matches!(
        error.infallible().kind,
        ErrorKind::InvalidTreeName
    ));
}

#[test]
fn pools_are_scaled() {
    let pool = ThreadPool::new(4);
    assert_eq!(pool.maximum_threads(), 4);
    assert_eq!(pool.scale(0, 3), Scaling::Start { running: 0, next: 1 });
    assert_eq!(pool.scale(2, 3), Scaling::Start { running: 2, next: 3 });
    assert_eq!(pool.scale(3, 3), Scaling::Enough);
    assert_eq!(pool.scale(3, 9), Scaling::Start { running: 3, next: 4 });
    assert_eq!(pool.scale(4, 9), Scaling::Enough);
    // By default there are as many threads as processors.
    assert_eq!(ThreadPool::default().maximum_threads(), num_cpus::get());
}
