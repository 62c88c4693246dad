//! Transactions over one tree or several.

use nebari::pool::gather;
use nebari::{
    AnyFileManager, AnyTransactionTree, Bound, CompareAndSwapError, Config, Error, ErrorKind,
    ExecutingTransaction, FileManager, KeyRange, LogEntry, MemoryFileManager, Operation, PathKind,
    Root, Roots, ScanEvaluation, SequenceRange, ThreadPool, TransactionId, TransactionTree, Tree,
    Unversioned, Vault, Versioned,
};

fn database() -> Roots {
    Config::new("database").open(PathKind::Missing).unwrap()
}

fn bytes(text: &str) -> Vec<u8> {
    text.as_bytes().to_vec()
}

fn trees(roots: &mut Roots, names: &[&str]) -> Vec<Tree> {
    let mut trees = Vec::new();
    for name in names {
        trees.push(roots.tree(Versioned::tree(name)).unwrap());
    }
    trees
}

/// Commits a transaction whose trees and entry can be written.
fn commit(transaction: ExecutingTransaction, roots: &mut Roots) -> Result<(), Error> {
    let mut thread_count = 0;
    transaction.commit(roots, &mut thread_count, &mut MemoryFileManager)
}

fn everything() -> KeyRange {
    KeyRange {
        start: Bound::Unbounded,
        end: Bound::Unbounded,
    }
}

#[test]
fn all_trees_are_published_together() {
    let mut roots = database();
    let handles = trees(&mut roots, &["one", "two", "three"]);
    let mut transaction = roots
        .transaction(&[
            handles[0].root(),
            Versioned::tree("two"),
            Unversioned::tree("four"),
        ])
        .unwrap();
    for place in 0..2 {
        transaction
            .tree::<Versioned>(place)
            .unwrap()
            .deref_mut()
            .set(bytes("key"), vec![place as u8])
            .unwrap();
    }
    transaction
        .unlocked_tree(2)
        .unwrap()
        .lock::<Unversioned>()
        .deref_mut()
        .set(bytes("key"), vec![2])
        .unwrap();
    assert!(transaction.tree::<Versioned>(3).is_none());
    assert!(transaction.unlocked_tree(3).is_none());
    assert_eq!(handles[0].get(&roots, b"key").unwrap(), None);
    assert_eq!(handles[1].get(&roots, b"key").unwrap(), None);
    commit(transaction, &mut roots).unwrap();
    assert_eq!(handles[0].get(&roots, b"key").unwrap(), Some(vec![0]));
    assert_eq!(handles[1].get(&roots, b"key").unwrap(), Some(vec![1]));
    assert_eq!(handles[2].get(&roots, b"key").unwrap(), None);
    let made = roots.tree(Unversioned::tree("four")).unwrap();
    assert_eq!(made.get(&roots, b"key").unwrap(), Some(vec![2]));
}

#[test]
fn a_transaction_may_hold_no_tree() {
    let mut roots = database();
    let transaction = roots.transaction(&[]).unwrap();
    commit(transaction, &mut roots).unwrap();
    assert_eq!(roots.transactions().len(), 1);
}

#[test]
fn trees_are_exclusive() {
    let mut roots = database();
    let handles = trees(&mut roots, &["one", "two", "three"]);
    let transaction = roots
        .transaction(&[Versioned::tree("one"), Versioned::tree("two")])
        .unwrap();
    // No other transaction over one of them can begin.
    match roots.transaction(&[Versioned::tree("three"), Versioned::tree("two")]) {
        Err(error) => assert!(matches!(error.kind, ErrorKind::TreeLocked)),
        Ok(_) => panic!("the tree is held"),
    }
    assert!(matches!(
        handles[0]
            .set(&mut roots, bytes("a"), bytes("b"), &mut MemoryFileManager)
            .unwrap_err()
            .kind,
        ErrorKind::TreeLocked
    ));
    assert!(matches!(
        handles[1].compact(&mut roots).unwrap_err().kind,
        ErrorKind::TreeLocked
    ));
    match handles[1].compare_and_swap(&mut roots, b"a", None, None, &mut MemoryFileManager) {
        Err(CompareAndSwapError::Error(error)) => {
            assert!(matches!(error.kind, ErrorKind::TreeLocked))
        }
        _ => panic!("the tree is held"),
    }
    // Other trees are free.
    handles[2].set(&mut roots, bytes("a"), bytes("b"), &mut MemoryFileManager).unwrap();
    // And so are these once the transaction has ended.
    transaction.rollback(&mut roots);
    handles[0].set(&mut roots, bytes("a"), bytes("b"), &mut MemoryFileManager).unwrap();
    handles[1].compact(&mut roots).unwrap();
}

#[test]
fn a_tree_is_named_once() {
    let mut roots = database();
    match roots.transaction(&[Versioned::tree("one"), Versioned::tree("one")]) {
        Err(error) => assert!(matches!(error.kind, ErrorKind::TreeNamedTwice)),
        Ok(_) => panic!("the tree is named twice"),
    }
    // That it is held as well makes no difference.
    let transaction = roots.transaction(&[Versioned::tree("one")]).unwrap();
    match roots.transaction(&[Versioned::tree("one"), Versioned::tree("one")]) {
        Err(error) => assert!(matches!(error.kind, ErrorKind::TreeNamedTwice)),
        Ok(_) => panic!("the tree is named twice"),
    }
    transaction.rollback(&mut roots);
}

#[test]
fn names_are_checked() {
    let mut roots = database();
    match roots.transaction(&[Versioned::tree("one"), Versioned::tree("a/b")]) {
        Err(error) => assert!(matches!(error.kind, ErrorKind::InvalidTreeName)),
        Ok(_) => panic!("the name is invalid"),
    }
    match roots.tree(Versioned::tree("_transactions")) {
        Err(error) => assert!(matches!(error.kind, ErrorKind::InvalidTreeName)),
        Ok(_) => panic!("the name is invalid"),
    }
}

#[test]
fn executing_changes_are_counted() {
    let mut roots = database();
    let handle = trees(&mut roots, &["one"]).remove(0);
    handle.set(&mut roots, bytes("a"), bytes("1"), &mut MemoryFileManager)
        .unwrap();
    let mut transaction = roots.transaction(&[handle.root()]).unwrap();
    let mut locked = transaction.tree::<Versioned>(0).unwrap();
    locked.deref_mut().set(bytes("b"), bytes("2")).unwrap();
    locked.deref_mut().set(bytes("c"), bytes("3")).unwrap();
    assert_eq!(locked.deref().current_sequence_id(), 3);
    assert_eq!(handle.count(&roots, Some(&transaction)), 3);
    assert_eq!(handle.current_sequence_id(&roots, Some(&transaction)), 3);
    assert_eq!(handle.get(&roots, b"b").unwrap(), None);
    transaction.rollback(&mut roots);
    assert_eq!(handle.count(&roots, None), 1);
    assert_eq!(handle.current_sequence_id(&roots, None), 1);
}

#[test]
fn transaction_trees_read_their_own_changes() {
    let mut roots = database();
    let mut transaction = roots.transaction(&[Versioned::tree("one")]).unwrap();
    let mut locked = transaction.tree::<Versioned>(0).unwrap();
    let tree = locked.deref_mut();
    let index = tree.set(bytes("a"), bytes("12")).unwrap();
    assert_eq!(index.sequence_id, Some(1));
    assert_eq!(index.value_length, 2);
    assert_eq!(tree.get_index(b"a").unwrap(), Some(index));
    assert_eq!(tree.get_with_index(b"a").unwrap(), Some((bytes("12"), index)));
    let (existing, _) = tree.replace(bytes("a"), bytes("3")).unwrap();
    assert_eq!(existing, Some(bytes("12")));
    tree.modify(vec![bytes("b"), bytes("c")], Operation::SetAll(bytes("x")))
        .unwrap();
    let keys: [&[u8]; 3] = [b"a", b"b", b"d"];
    assert_eq!(tree.get_multiple(&keys).unwrap().len(), 2);
    assert_eq!(tree.get_multiple_indexes(&keys).unwrap()[0].1.value_length, 1);
    assert_eq!(tree.get_multiple_with_indexes(&keys).unwrap()[1].1, b"x");
    assert_eq!(tree.get_range(&everything()).unwrap().len(), 3);
    assert_eq!(tree.get_range_indexes(&everything()).unwrap()[2].0, b"c");
    assert_eq!(tree.get_range_with_indexes(&everything()).unwrap()[0].1, b"3");
    assert_eq!(tree.first_key().unwrap(), Some(bytes("a")));
    assert_eq!(tree.first().unwrap(), Some((bytes("a"), bytes("3"))));
    assert_eq!(tree.last_key().unwrap(), Some(bytes("c")));
    assert_eq!(tree.last().unwrap(), Some((bytes("c"), bytes("x"))));
    assert_eq!(tree.reduce(&everything()).unwrap().unwrap().total_bytes, 3);
    match tree.compare_and_swap(b"a", Some(b"12"), None) {
        Err(CompareAndSwapError::Conflict(existing)) => assert_eq!(existing, Some(bytes("3"))),
        _ => panic!("the value is another"),
    }
    tree.compare_and_swap(b"a", Some(b"3"), Some(bytes("4"))).unwrap();
    let (removed, _) = tree.remove(b"a").unwrap().unwrap();
    assert_eq!(removed, b"4");
    assert_eq!(tree.get(b"a").unwrap(), None);
    assert_eq!(tree.current_sequence_id(), 6);
    assert_eq!(tree.get_multiple_by_sequence(&[6]).unwrap()[&6], (bytes("a"), None));
    assert_eq!(tree.get_multiple_indexes_by_sequence(&[5]).unwrap()[0].sequence, 5);
    assert_eq!(
        tree.get_multiple_with_indexes_by_sequence(&[1]).unwrap()[&1].value,
        Some(bytes("12"))
    );
    let count = tree
        .scan::<_, String, _, _, _>(
            &everything(),
            true,
            |_, _, _| ScanEvaluation::ReadData,
            |_, _| ScanEvaluation::ReadData,
            |count: usize, _, _, _| Ok(count + 1),
            0,
        )
        .unwrap();
    assert_eq!(count, 2);
    let range = SequenceRange {
        start: Bound::Included(1),
        end: Bound::Included(2),
    };
    let count = tree
        .scan_sequences::<_, String, _, _>(
            &range,
            true,
            |_| ScanEvaluation::ReadData,
            |count: usize, _, _| Ok(count + 1),
            0,
        )
        .unwrap();
    assert_eq!(count, 2);
}

#[test]
fn committed_transactions_are_logged() {
    let mut roots = database();
    let mut transaction = roots
        .transaction(&[Versioned::tree("one"), Versioned::tree("two")])
        .unwrap();
    assert_eq!(transaction.entry().data(), None);
    transaction.entry_mut().set_data(bytes("data")).unwrap();
    let id = transaction.entry().id();
    commit(transaction, &mut roots).unwrap();
    let dropped = roots.transaction(&[Versioned::tree("one")]).unwrap();
    assert_ne!(dropped.entry().id(), id);
    dropped.rollback(&mut roots);
    assert_eq!(roots.transactions().len(), 1);
    assert_eq!(roots.transactions()[0].entry.id(), id);
    assert_eq!(roots.transactions()[0].entry.data(), Some(&bytes("data")));
}

#[test]
fn data_has_a_limit() {
    let mut roots = database();
    let mut transaction = roots.transaction(&[]).unwrap();
    let limit = 16 * 1024 * 1024 - 8;
    transaction.entry_mut().set_data(vec![1; limit]).unwrap();
    let error = transaction
        .entry_mut()
        .set_data(vec![2; limit + 1])
        .unwrap_err();
    assert!(matches!(error.kind, ErrorKind::ValueTooLarge));
    // What was attached before is still there.
    assert_eq!(transaction.entry().data().unwrap()[0], 1);
    assert_eq!(transaction.entry().data().unwrap().len(), limit);
}

#[test]
fn trees_can_be_written_elsewhere() {
    let mut roots = database();
    let handles = trees(&mut roots, &["one", "two"]);
    let mut transaction = roots
        .transaction(&[handles[0].root(), handles[1].root()])
        .unwrap();
    transaction
        .tree::<Versioned>(1)
        .unwrap()
        .deref_mut()
        .set(bytes("a"), bytes("1"))
        .unwrap();
    let (committing, mut written) = transaction.start_commit();
    for tree in &mut written {
        tree.commit(Ok(())).unwrap();
    }
    committing.finish(&mut roots, written, None).unwrap();
    assert_eq!(handles[1].get(&roots, b"a").unwrap(), Some(bytes("1")));
    assert_eq!(roots.transactions().len(), 1);
    handles[1].set(&mut roots, bytes("a"), bytes("2"), &mut MemoryFileManager).unwrap();
}

#[test]
fn a_failed_commit_is_not_seen() {
    let mut roots = database();
    let handle = trees(&mut roots, &["one"]).remove(0);
    handle.set(&mut roots, bytes("a"), bytes("1"), &mut MemoryFileManager)
        .unwrap();
    let mut transaction = roots.transaction(&[handle.root()]).unwrap();
    transaction
        .tree::<Versioned>(0)
        .unwrap()
        .deref_mut()
        .set(bytes("a"), bytes("2"))
        .unwrap();
    let (committing, written) = transaction.start_commit();
    let failure = Some(Error::from("the disk is full".to_owned()));
    match committing.finish(&mut roots, written, failure) {
        Err(Error {
            kind: ErrorKind::Message(message),
        }) => assert_eq!(message, "the disk is full"),
        _ => panic!("the commit has failed"),
    }
    // Readers see the old value, and the tree is free again.
    assert_eq!(handle.get(&roots, b"a").unwrap(), Some(bytes("1")));
    assert_eq!(roots.transactions().len(), 1);
    let mut transaction = roots.transaction(&[handle.root()]).unwrap();
    let locked = transaction.tree::<Versioned>(0).unwrap();
    assert_eq!(locked.deref().get(b"a").unwrap(), Some(bytes("2")));
}

#[test]
fn a_deleted_tree_is_not_written() {
    let mut roots = database();
    let handle = trees(&mut roots, &["one"]).remove(0);
    let mut transaction = roots.transaction(&[handle.root()]).unwrap();
    transaction
        .tree::<Versioned>(0)
        .unwrap()
        .deref_mut()
        .set(bytes("a"), bytes("1"))
        .unwrap();
    assert!(roots.delete_tree("one").unwrap());
    let again = roots.tree(Versioned::tree("one")).unwrap();
    commit(transaction, &mut roots).unwrap();
    assert_eq!(again.get(&roots, b"a").unwrap(), None);
}

#[test]
fn another_vault_is_refused() {
    let mut roots = database();
    let own = Versioned::tree("one").with_vault(Vault::new(1));
    let handle = roots.tree(own).unwrap();
    handle.set(&mut roots, bytes("a"), bytes("1"), &mut MemoryFileManager)
        .unwrap();
    let other = roots.tree(Versioned::tree("one")).unwrap();
    assert!(matches!(
        other.get(&roots, b"a").unwrap_err().kind,
        ErrorKind::VaultMismatch
    ));
    assert!(matches!(
        other.set(&mut roots, bytes("a"), bytes("2"), &mut MemoryFileManager).unwrap_err().kind,
        ErrorKind::VaultMismatch
    ));
    match roots.transaction(&[Versioned::tree("two"), Versioned::tree("one")]) {
        Err(error) => assert!(matches!(error.kind, ErrorKind::VaultMismatch)),
        Ok(_) => panic!("the vault is another"),
    }
    assert_eq!(handle.get(&roots, b"a").unwrap(), Some(bytes("1")));
}

#[test]
fn a_pool_of_one_writes_many_trees() {
    let pool = ThreadPool::new(1);
    let mut roots = Config::new("database")
        .shared_thread_pool(&pool)
        .open(PathKind::Missing)
        .unwrap();
    let names = ["a", "b", "c", "d", "e"];
    let handles = trees(&mut roots, &names);
    let described: Vec<_> = handles.iter().map(|handle| handle.root()).collect();
    let mut transaction = roots.transaction(&described).unwrap();
    for place in 0..names.len() {
        transaction
            .tree::<Versioned>(place)
            .unwrap()
            .deref_mut()
            .set(bytes("key"), bytes(names[place]))
            .unwrap();
    }
    commit(transaction, &mut roots).unwrap();
    for place in 0..names.len() {
        assert_eq!(
            handles[place].get(&roots, b"key").unwrap(),
            Some(bytes(names[place]))
        );
    }
}

#[test]
fn two_trees_are_locked_at_once() {
    let mut roots = database();
    let mut transaction = roots
        .transaction(&[Versioned::tree("one"), Unversioned::tree("two")])
        .unwrap();
    assert!(transaction.two_trees::<Versioned, Versioned>(0, 0).is_none());
    assert!(transaction.two_trees::<Versioned, Versioned>(0, 2).is_none());
    {
        let (mut one, mut two) = transaction
            .two_trees::<Versioned, Unversioned>(0, 1)
            .unwrap();
        one.deref_mut().set(bytes("a"), bytes("1")).unwrap();
        let value = one.deref().get(b"a").unwrap().unwrap();
        two.deref_mut().set(bytes("b"), value).unwrap();
    }
    {
        let (two, one) = transaction
            .two_trees::<Unversioned, Versioned>(1, 0)
            .unwrap();
        assert_eq!(two.deref().get(b"b").unwrap(), Some(bytes("1")));
        assert_eq!(one.deref().get(b"b").unwrap(), None);
    }
    commit(transaction, &mut roots).unwrap();
    let two = roots.tree(Unversioned::tree("two")).unwrap();
    assert_eq!(two.get(&roots, b"b").unwrap(), Some(bytes("1")));
}

#[test]
fn deleting_a_tree_frees_no_lock() {
    let mut roots = database();
    let handle = trees(&mut roots, &["one"]).remove(0);
    let transaction = roots.transaction(&[handle.root()]).unwrap();
    assert!(roots.delete_tree("one").unwrap());
    for _ in 0..2 {
        match roots.transaction(&[Versioned::tree("one")]) {
            Err(error) => assert!(matches!(error.kind, ErrorKind::TreeLocked)),
            Ok(_) => panic!("the tree is held"),
        }
        // Nor does making the tree again.
        roots.tree(Versioned::tree("one")).unwrap();
    }
    assert!(matches!(
        handle.set(&mut roots, bytes("a"), bytes("1"), &mut MemoryFileManager).unwrap_err().kind,
        ErrorKind::TreeLocked
    ));
    transaction.rollback(&mut roots);
    handle.set(&mut roots, bytes("a"), bytes("1"), &mut MemoryFileManager)
        .unwrap();
}

/// A database with two trees, and a transaction that has changed both.
fn changed() -> (Roots, Vec<Tree>, ExecutingTransaction) {
    let mut roots = database();
    let handles = trees(&mut roots, &["one", "two"]);
    let mut transaction = roots
        .transaction(&[handles[0].root(), handles[1].root()])
        .unwrap();
    for place in 0..2 {
        transaction
            .tree::<Versioned>(place)
            .unwrap()
            .deref_mut()
            .set(bytes("a"), bytes("1"))
            .unwrap();
    }
    (roots, handles, transaction)
}

fn assert_unseen(mut roots: Roots, handles: Vec<Tree>) {
    for handle in handles {
        assert_eq!(handle.get(&roots, b"a").unwrap(), None);
        // The tree is free again.
        roots.transaction(&[handle.root()]).unwrap();
    }
    assert_eq!(roots.transactions().len(), 0);
}

/// What was asked of the files.
#[derive(Debug, PartialEq)]
enum Step {
    Written(String),
    Pushed(TransactionId),
}

/// Files that list what was asked of them, and that fail at one tree or at the log.
#[derive(Default)]
struct ListedFiles {
    steps: Vec<Step>,
    failing_tree: Option<&'static str>,
    failing_log: bool,
}

impl FileManager for ListedFiles {
    fn write_tree(&mut self, tree: &TransactionTree) -> Result<(), Error> {
        self.steps.push(Step::Written(tree.name().to_owned()));
        if self.failing_tree == Some(tree.name()) {
            return Err(Error::from("the disk is full".to_owned()));
        }
        Ok(())
    }

    fn push_entry(&mut self, entry: &LogEntry) -> Result<(), Error> {
        self.steps.push(Step::Pushed(entry.id()));
        if self.failing_log {
            return Err(Error::from(ErrorKind::InternalCommunication));
        }
        Ok(())
    }
}

#[test]
fn trees_are_written_once_and_before_the_log() {
    let (mut roots, handles, transaction) = changed();
    let id = transaction.entry().id();
    let mut thread_count = 0;
    let mut files = ListedFiles::default();
    transaction
        .commit(&mut roots, &mut thread_count, &mut files)
        .unwrap();
    assert_eq!(
        files.steps,
        vec![
            Step::Written("one".to_owned()),
            Step::Written("two".to_owned()),
            Step::Pushed(id),
        ]
    );
    assert_eq!(roots.transactions().len(), 1);
    for handle in handles {
        assert_eq!(handle.get(&roots, b"a").unwrap(), Some(bytes("1")));
    }
}

#[test]
fn nothing_is_published_if_a_tree_cannot_be_written() {
    for failing in ["one", "two"] {
        let (mut roots, handles, transaction) = changed();
        let mut thread_count = 0;
        let mut files = ListedFiles {
            failing_tree: Some(failing),
            ..ListedFiles::default()
        };
        let error = transaction
            .commit(&mut roots, &mut thread_count, &mut files)
            .unwrap_err();
        assert!(matches!(error.kind, ErrorKind::Message(message) if message == "the disk is full"));
        // Every tree was tried, and nothing was pushed.
        assert_eq!(
            files.steps,
            vec![
                Step::Written("one".to_owned()),
                Step::Written("two".to_owned()),
            ]
        );
        assert_unseen(roots, handles);
    }
}

#[test]
fn nothing_is_published_if_a_single_tree_cannot_be_written() {
    let mut roots = database();
    let handle = trees(&mut roots, &["one"]).remove(0);
    let mut transaction = roots.transaction(&[handle.root()]).unwrap();
    transaction
        .tree::<Versioned>(0)
        .unwrap()
        .deref_mut()
        .set(bytes("a"), bytes("1"))
        .unwrap();
    let mut thread_count = 0;
    let mut files = ListedFiles {
        failing_tree: Some("one"),
        ..ListedFiles::default()
    };
    let error = transaction
        .commit(&mut roots, &mut thread_count, &mut files)
        .unwrap_err();
    assert!(matches!(error.kind, ErrorKind::Message(message) if message == "the disk is full"));
    assert_eq!(files.steps, vec![Step::Written("one".to_owned())]);
    assert_unseen(roots, vec![handle]);
}

#[test]
fn nothing_is_published_if_the_log_cannot_be_written() {
    let (mut roots, handles, transaction) = changed();
    let id = transaction.entry().id();
    let mut thread_count = 0;
    let mut files = ListedFiles {
        failing_log: true,
        ..ListedFiles::default()
    };
    let error = transaction
        .commit(&mut roots, &mut thread_count, &mut files)
        .unwrap_err();
    assert!(matches!(error.kind, ErrorKind::InternalCommunication));
    assert_eq!(files.steps.len(), 3);
    assert_eq!(files.steps[2], Step::Pushed(id));
    assert_unseen(roots, handles);
}

#[test]
fn single_changes_are_written_before_the_log() {
    let mut roots = database();
    let handle = trees(&mut roots, &["one"]).remove(0);
    let mut files = ListedFiles::default();
    handle
        .set(&mut roots, bytes("a"), bytes("1"), &mut files)
        .unwrap();
    assert_eq!(files.steps.len(), 2);
    assert_eq!(files.steps[0], Step::Written("one".to_owned()));
    assert!(matches!(files.steps[1], Step::Pushed(_)));

    // A change that is not made leaves the files as they are.
    files.steps.clear();
    match handle.compare_and_swap(&mut roots, b"a", None, None, &mut files) {
        Err(CompareAndSwapError::Conflict(existing)) => assert_eq!(existing, Some(bytes("1"))),
        _ => panic!("there is a value"),
    }
    assert!(files.steps.is_empty());

    // One that cannot be written is not seen, but the next change starts from it.
    files.failing_tree = Some("one");
    let error = handle
        .set(&mut roots, bytes("a"), bytes("2"), &mut files)
        .unwrap_err();
    assert!(matches!(error.kind, ErrorKind::Message(message) if message == "the disk is full"));
    assert_eq!(files.steps, vec![Step::Written("one".to_owned())]);
    assert_eq!(handle.get(&roots, b"a").unwrap(), Some(bytes("1")));
    assert_eq!(roots.transactions().len(), 1);
    let (replaced, _) = handle
        .replace(&mut roots, bytes("a"), bytes("3"), &mut MemoryFileManager)
        .unwrap();
    assert_eq!(replaced, Some(bytes("2")));
    assert_eq!(handle.get(&roots, b"a").unwrap(), Some(bytes("3")));
}

#[test]
fn transactions_stay_in_hand() {
    let mut roots = database();
    let handles = trees(&mut roots, &["one", "two", "three"]);
    let mut transaction = roots.transaction(&[handles[0].root()]).unwrap();
    transaction
        .tree::<Versioned>(0)
        .unwrap()
        .deref_mut()
        .set(bytes("a"), bytes("1"))
        .unwrap();
    // Whatever is done to the others in the meantime.
    let other = roots
        .transaction(&[handles[1].root(), Versioned::tree("four")])
        .unwrap();
    commit(other, &mut roots).unwrap();
    let other = roots.transaction(&[handles[1].root()]).unwrap();
    other.rollback(&mut roots);
    handles[2]
        .set(&mut roots, bytes("a"), bytes("2"), &mut MemoryFileManager)
        .unwrap();
    handles[2].compact(&mut roots).unwrap();
    assert!(roots.delete_tree("three").unwrap());
    roots.tree(Versioned::tree("one")).unwrap();
    commit(transaction, &mut roots).unwrap();
    assert_eq!(handles[0].get(&roots, b"a").unwrap(), Some(bytes("1")));
}

#[test]
fn the_order_of_writing_is_unseen() {
    let (mut roots, handles, transaction) = changed();
    let id = transaction.entry().id();
    let (committing, mut written) = transaction.start_commit();
    assert_eq!(committing.entry().id(), id);
    assert_eq!(committing.entry().trees(), &vec!["one", "two"]);
    for tree in &mut written {
        tree.commit(Ok(())).unwrap();
    }
    written.reverse();
    assert_eq!(written[0].name(), "two");
    committing.finish(&mut roots, written, None).unwrap();
    for handle in handles {
        assert_eq!(handle.get(&roots, b"a").unwrap(), Some(bytes("1")));
    }
    assert_eq!(roots.transactions().len(), 1);
}

#[test]
fn a_shared_pool_counts_its_threads_once() {
    let pool = ThreadPool::new(2);
    let mut thread_count = 0;
    for path in ["one", "two"] {
        let mut roots = Config::new(path)
            .file_manager(AnyFileManager::memory())
            .shared_thread_pool(&pool)
            .open(PathKind::Missing)
            .unwrap();
        let transaction = roots.transaction(&[Versioned::tree("a")]).unwrap();
        let before = thread_count;
        transaction
            .commit(&mut roots, &mut thread_count, &mut MemoryFileManager)
            .unwrap();
        // A single tree needs no thread.
        assert_eq!(thread_count, before);
        let transaction = roots
            .transaction(&[
                Versioned::tree("a"),
                Versioned::tree("b"),
                Versioned::tree("c"),
            ])
            .unwrap();
        transaction
            .commit(&mut roots, &mut thread_count, &mut MemoryFileManager)
            .unwrap();
        assert_eq!(thread_count, 2);
    }
}

#[test]
fn results_are_gathered() {
    let (_, _, transaction) = changed();
    let (_, trees) = transaction.start_commit();
    let written = gather(trees, vec![Ok(()), Ok(())]);
    assert!(written.failure.is_none());
    assert_eq!(written.trees.len(), 2);
    let written = gather(
        written.trees,
        vec![Ok(()), Err(Error::from(ErrorKind::FileNotFound))],
    );
    assert!(matches!(
        written.failure.unwrap().kind,
        ErrorKind::FileNotFound
    ));
    let written = gather(
        written.trees,
        vec![
            Err(Error::from(ErrorKind::ValueTooLarge)),
            Err(Error::from(ErrorKind::FileNotFound)),
        ],
    );
    assert!(matches!(
        written.failure.unwrap().kind,
        ErrorKind::ValueTooLarge
    ));
}
