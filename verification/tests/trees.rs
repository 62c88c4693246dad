//! Reading and changing the keys of a tree.

use nebari::reduce::rereduce;
use nebari::{
    AbortError, Bound, CompareAndSwapError, Config, ErrorKind, KeyIndex, KeyRange,
    MemoryFileManager, Operation, PathKind, ReducedIndex, Root, Roots, ScanEvaluation,
    SequenceRange, Tree, Unversioned, Vault, Versioned,
};

fn database() -> Roots {
    Config::new("database").open(PathKind::Missing).unwrap()
}

fn filled<R: Root>(keys: &[&str]) -> (Roots, Tree) {
    let mut roots = database();
    let tree = roots.tree(R::tree("test")).unwrap();
    for key in keys {
        let value = format!("value of {}", key);
        tree.set(&mut roots, bytes(key), value.into_bytes(), &mut MemoryFileManager)
            .unwrap();
    }
    (roots, tree)
}

fn bytes(text: &str) -> Vec<u8> {
    text.as_bytes().to_vec()
}

fn everything() -> KeyRange {
    KeyRange {
        start: Bound::Unbounded,
        end: Bound::Unbounded,
    }
}

fn index(sequence_id: Option<u64>, value_length: u64) -> KeyIndex {
    KeyIndex {
        sequence_id,
        value_length,
    }
}

#[test]
fn other_keys_keep_their_values() {
    let (mut roots, tree) = filled::<Unversioned>(&["a", "b", "c"]);
    tree.set(&mut roots, bytes("b"), bytes("new"), &mut MemoryFileManager)
        .unwrap();
    assert_eq!(tree.get(&roots, b"a").unwrap(), Some(bytes("value of a")));
    assert_eq!(tree.get(&roots, b"b").unwrap(), Some(bytes("new")));
    assert_eq!(tree.get(&roots, b"c").unwrap(), Some(bytes("value of c")));
    assert_eq!(tree.get(&roots, b"d").unwrap(), None);
    assert_eq!(tree.count(&roots, None), 3);
}

#[test]
fn replace_returns_what_was_stored() {
    let (mut roots, tree) = filled::<Versioned>(&["a"]);
    let (existing, new_index) = tree
        .replace(&mut roots, bytes("a"), bytes("12345"), &mut MemoryFileManager)
        .unwrap();
    assert_eq!(existing, Some(bytes("value of a")));
    assert_eq!(new_index, index(Some(2), 5));
    let (existing, new_index) = tree
        .replace(&mut roots, bytes("b"), bytes(""), &mut MemoryFileManager)
        .unwrap();
    assert_eq!(existing, None);
    assert_eq!(new_index, index(Some(3), 0));
    assert_eq!(tree.get_index(&roots, b"a").unwrap(), Some(index(Some(2), 5)));
    assert_eq!(
        tree.get_with_index(&roots, b"b").unwrap(),
        Some((Vec::new(), index(Some(3), 0)))
    );
    assert_eq!(tree.get_index(&roots, b"c").unwrap(), None);
    assert_eq!(tree.get_with_index(&roots, b"c").unwrap(), None);
}

#[test]
fn unversioned_indexes_name_no_change() {
    let (roots, tree) = filled::<Unversioned>(&["a"]);
    assert_eq!(tree.get_index(&roots, b"a").unwrap(), Some(index(None, 10)));
    assert_eq!(tree.current_sequence_id(&roots, None), 0);
}

#[test]
fn remove_returns_what_was_stored() {
    let (mut roots, tree) = filled::<Versioned>(&["a", "b"]);
    assert_eq!(
        tree.remove(&mut roots, b"a", &mut MemoryFileManager).unwrap(),
        Some((bytes("value of a"), index(Some(1), 10)))
    );
    assert_eq!(tree.get(&roots, b"a").unwrap(), None);
    assert_eq!(tree.count(&roots, None), 1);
    // Removing a key that is not there is no change.
    assert_eq!(tree.current_sequence_id(&roots, None), 3);
    assert_eq!(tree.remove(&mut roots, b"a", &mut MemoryFileManager).unwrap(), None);
    assert_eq!(tree.current_sequence_id(&roots, None), 3);
    // Setting it again brings the value back.
    tree.set(&mut roots, bytes("a"), bytes("value of a"), &mut MemoryFileManager)
        .unwrap();
    assert_eq!(tree.get(&roots, b"a").unwrap(), Some(bytes("value of a")));
    assert_eq!(tree.count(&roots, None), 2);
}

#[test]
fn swaps_compare_first() {
    let (mut roots, tree) = filled::<Versioned>(&["a"]);
    // A value that matches is swapped.
    tree.compare_and_swap(
        &mut roots,
        b"a",
        Some(b"value of a"),
        Some(bytes("1")),
        &mut MemoryFileManager,
    )
    .unwrap();
    assert_eq!(tree.get(&roots, b"a").unwrap(), Some(bytes("1")));
    // Another value is a conflict, and nothing changes.
    match tree.compare_and_swap(
        &mut roots,
        b"a",
        Some(b"value of a"),
        Some(bytes("2")),
        &mut MemoryFileManager,
    ) {
        Err(CompareAndSwapError::Conflict(existing)) => assert_eq!(existing, Some(bytes("1"))),
        other => panic!("unexpected: {:?}", other),
    }
    match tree.compare_and_swap(&mut roots, b"a", None, Some(bytes("2")), &mut MemoryFileManager) {
        Err(CompareAndSwapError::Conflict(existing)) => assert_eq!(existing, Some(bytes("1"))),
        other => panic!("unexpected: {:?}", other),
    }
    match tree.compare_and_swap(&mut roots, b"b", Some(b"1"), None, &mut MemoryFileManager) {
        Err(CompareAndSwapError::Conflict(existing)) => assert_eq!(existing, None),
        other => panic!("unexpected: {:?}", other),
    }
    assert_eq!(tree.get(&roots, b"a").unwrap(), Some(bytes("1")));
    assert_eq!(tree.current_sequence_id(&roots, None), 2);
    // A key that is not there is set where nothing is expected.
    tree.compare_and_swap(&mut roots, b"b", None, Some(bytes("3")), &mut MemoryFileManager)
        .unwrap();
    assert_eq!(tree.get(&roots, b"b").unwrap(), Some(bytes("3")));
    // And without a new value the key is removed.
    tree.compare_and_swap(&mut roots, b"a", Some(b"1"), None, &mut MemoryFileManager)
        .unwrap();
    assert_eq!(tree.get(&roots, b"a").unwrap(), None);
}

#[test]
fn modifications_change_several_keys() {
    let (mut roots, tree) = filled::<Versioned>(&["a", "c"]);
    let results = tree
        .modify(
            &mut roots,
            vec![bytes("a"), bytes("b")],
            Operation::SetAll(bytes("same")),
            &mut MemoryFileManager,
        )
        .unwrap();
    assert_eq!(results.len(), 2);
    assert_eq!(results[0].key, b"a");
    assert_eq!(results[0].index, Some(index(Some(3), 4)));
    assert_eq!(results[1].key, b"b");
    assert_eq!(results[1].index, Some(index(Some(4), 4)));

    let results = tree
        .modify(
            &mut roots,
            vec![bytes("a"), bytes("b")],
            Operation::SetEach(vec![bytes("1"), bytes("22")]),
            &mut MemoryFileManager,
        )
        .unwrap();
    assert_eq!(results[1].index, Some(index(Some(6), 2)));
    assert_eq!(tree.get(&roots, b"a").unwrap(), Some(bytes("1")));
    assert_eq!(tree.get(&roots, b"b").unwrap(), Some(bytes("22")));
    assert_eq!(tree.get(&roots, b"c").unwrap(), Some(bytes("value of c")));

    // Only the keys that were there have been changed.
    let results = tree
        .modify(
            &mut roots,
            vec![bytes("a"), bytes("x"), bytes("c")],
            Operation::Remove,
            &mut MemoryFileManager,
        )
        .unwrap();
    assert_eq!(results.len(), 2);
    assert_eq!(results[0].key, b"a");
    assert_eq!(results[0].index, None);
    assert_eq!(results[1].key, b"c");
    assert_eq!(tree.count(&roots, None), 1);
}

#[test]
fn several_keys_are_read_at_once() {
    let (roots, tree) = filled::<Versioned>(&["a", "b", "d"]);
    let keys: [&[u8]; 4] = [b"a", b"b", b"c", b"d"];
    assert_eq!(
        tree.get_multiple(&roots, &keys).unwrap(),
        vec![
            (bytes("a"), bytes("value of a")),
            (bytes("b"), bytes("value of b")),
            (bytes("d"), bytes("value of d")),
        ]
    );
    assert_eq!(
        tree.get_multiple_indexes(&roots, &keys).unwrap(),
        vec![
            (bytes("a"), index(Some(1), 10)),
            (bytes("b"), index(Some(2), 10)),
            (bytes("d"), index(Some(3), 10)),
        ]
    );
    assert_eq!(
        tree.get_multiple_with_indexes(&roots, &keys[2..]).unwrap(),
        vec![(bytes("d"), bytes("value of d"), index(Some(3), 10))]
    );
}

#[test]
fn ranges_are_read_in_order() {
    let (roots, tree) = filled::<Versioned>(&["c", "a", "ab", "b"]);
    let keys = |range: &KeyRange| -> Vec<Vec<u8>> {
        tree.get_range(&roots, range)
            .unwrap()
            .into_iter()
            .map(|(key, _)| key)
            .collect()
    };
    assert_eq!(
        keys(&everything()),
        vec![bytes("a"), bytes("ab"), bytes("b"), bytes("c")]
    );
    assert_eq!(
        keys(&KeyRange {
            start: Bound::Included(bytes("ab")),
            end: Bound::Excluded(bytes("c")),
        }),
        vec![bytes("ab"), bytes("b")]
    );
    assert_eq!(
        keys(&KeyRange {
            start: Bound::Excluded(bytes("ab")),
            end: Bound::Included(bytes("c")),
        }),
        vec![bytes("b"), bytes("c")]
    );
    assert_eq!(
        keys(&KeyRange {
            start: Bound::Included(bytes("c")),
            end: Bound::Excluded(bytes("a")),
        }),
        Vec::<Vec<u8>>::new()
    );
    let first_two = KeyRange {
        start: Bound::Unbounded,
        end: Bound::Excluded(bytes("b")),
    };
    assert_eq!(
        tree.get_range_indexes(&roots, &first_two).unwrap(),
        vec![
            (bytes("a"), index(Some(2), 10)),
            (bytes("ab"), index(Some(3), 11)),
        ]
    );
    assert_eq!(
        tree.get_range_with_indexes(&roots, &first_two).unwrap()[1],
        (bytes("ab"), bytes("value of ab"), index(Some(3), 11))
    );
}

#[test]
fn first_and_last_keys() {
    let (roots, tree) = filled::<Unversioned>(&["m", "a", "z"]);
    assert_eq!(tree.first_key(&roots).unwrap(), Some(bytes("a")));
    assert_eq!(
        tree.first(&roots).unwrap(),
        Some((bytes("a"), bytes("value of a")))
    );
    assert_eq!(tree.last_key(&roots).unwrap(), Some(bytes("z")));
    assert_eq!(
        tree.last(&roots).unwrap(),
        Some((bytes("z"), bytes("value of z")))
    );
    let (roots, tree) = filled::<Unversioned>(&[]);
    assert_eq!(tree.first_key(&roots).unwrap(), None);
    assert_eq!(tree.first(&roots).unwrap(), None);
    assert_eq!(tree.last_key(&roots).unwrap(), None);
    assert_eq!(tree.last(&roots).unwrap(), None);
}

#[test]
fn changes_are_found_by_their_number() {
    let (mut roots, tree) = filled::<Versioned>(&["a", "b"]);
    tree.set(&mut roots, bytes("a"), bytes("new"), &mut MemoryFileManager)
        .unwrap();
    tree.remove(&mut roots, b"b", &mut MemoryFileManager).unwrap();
    assert_eq!(tree.current_sequence_id(&roots, None), 4);

    let values = tree.get_multiple_by_sequence(&roots, &[1, 3, 4, 9]).unwrap();
    assert_eq!(values.len(), 3);
    assert_eq!(values[&1], (bytes("a"), Some(bytes("value of a"))));
    assert_eq!(values[&3], (bytes("a"), Some(bytes("new"))));
    assert_eq!(values[&4], (bytes("b"), None));

    let indexes = tree
        .get_multiple_indexes_by_sequence(&roots, &[4, 0, 3])
        .unwrap();
    assert_eq!(indexes.len(), 2);
    assert_eq!(indexes[0].key, b"b");
    assert_eq!(indexes[0].sequence, 4);
    assert_eq!(indexes[0].index, None);
    assert_eq!(indexes[1].sequence, 3);
    assert_eq!(indexes[1].index, Some(index(Some(3), 3)));

    let entries = tree
        .get_multiple_with_indexes_by_sequence(&roots, &[2, 4])
        .unwrap();
    assert_eq!(entries.len(), 2);
    assert_eq!(entries[&2].value, Some(bytes("value of b")));
    assert_eq!(entries[&2].index.key, b"b");
    assert_eq!(entries[&4].value, None);
}

#[test]
fn sequence_reads_need_the_file() {
    let (mut roots, tree) = filled::<Versioned>(&["a"]);
    assert!(roots.delete_tree("test").unwrap());
    assert!(matches!(
        tree.get_multiple_by_sequence(&roots, &[1]).unwrap_err().kind,
        ErrorKind::FileNotFound
    ));
    // Other reads find nothing.
    assert_eq!(tree.get(&roots, b"a").unwrap(), None);
    assert_eq!(tree.get_range(&roots, &everything()).unwrap(), Vec::new());
    assert_eq!(
        tree.reduce(&roots, &everything()).unwrap(),
        Some(rereduce(&[]))
    );
}

fn scanned_changes(forwards: bool) -> Vec<(u64, Vec<u8>, Vec<u8>)> {
    let (mut roots, tree) = filled::<Versioned>(&["a", "b", "c", "d"]);
    tree.remove(&mut roots, b"c", &mut MemoryFileManager).unwrap();
    let range = SequenceRange {
        start: Bound::Excluded(1),
        end: Bound::Unbounded,
    };
    tree.scan_sequences::<_, std::convert::Infallible, _, _>(
        &roots,
        &range,
        forwards,
        |sequence| {
            if sequence.sequence == 3 {
                ScanEvaluation::Skip
            } else {
                ScanEvaluation::ReadData
            }
        },
        |mut read: Vec<(u64, Vec<u8>, Vec<u8>)>, sequence, value| {
            read.push((sequence.sequence, sequence.key.clone(), value.clone()));
            Ok(read)
        },
        Vec::new(),
    )
    .map_err(AbortError::infallible)
    .unwrap()
}

#[test]
fn changes_are_scanned_in_both_directions() {
    let forwards = scanned_changes(true);
    assert_eq!(forwards.len(), 3);
    assert_eq!(forwards[0], (2, bytes("b"), bytes("value of b")));
    assert_eq!(forwards[1], (4, bytes("d"), bytes("value of d")));
    // The change that removed a key comes without a value.
    assert_eq!(forwards[2], (5, bytes("c"), bytes("")));
    let mut backwards = scanned_changes(false);
    backwards.reverse();
    assert_eq!(forwards, backwards);
}

fn numbered(count: u16) -> (Roots, Tree) {
    let mut roots = database();
    let tree = roots.tree(Unversioned::tree("test")).unwrap();
    let mut keys = Vec::new();
    let mut values = Vec::new();
    for number in 0..count {
        keys.push(number.to_be_bytes().to_vec());
        values.push(vec![0; 3]);
    }
    tree.modify(&mut roots, keys, Operation::SetEach(values), &mut MemoryFileManager)
        .unwrap();
    (roots, tree)
}

#[test]
fn scans_read_what_the_caller_asks_for() {
    let (roots, tree) = numbered(300);
    // All keys are met, in ascending order.
    let read = |forwards: bool| -> Vec<Vec<u8>> {
        tree.scan::<_, String, _, _, _>(
            &roots,
            &everything(),
            forwards,
            |_, _, _| ScanEvaluation::ReadData,
            |_, _| ScanEvaluation::ReadData,
            |mut keys: Vec<Vec<u8>>, key, _, value| {
                assert_eq!(value.len(), 3);
                keys.push(key.clone());
                Ok(keys)
            },
            Vec::new(),
        )
        .unwrap()
    };
    let forwards = read(true);
    assert_eq!(forwards.len(), 300);
    assert_eq!(forwards[0], 0u16.to_be_bytes());
    assert_eq!(forwards[299], 299u16.to_be_bytes());
    let mut backwards = read(false);
    backwards.reverse();
    assert_eq!(forwards, backwards);
    // A node that is passed over is not read. The first node ends with key 127.
    let last_of_first = 127u16.to_be_bytes().to_vec();
    let rest = tree
        .scan::<_, String, _, _, _>(
            &roots,
            &everything(),
            true,
            |last, reduced, depth| {
                assert_eq!(depth, 0);
                assert_eq!(reduced.total_bytes, reduced.alive_keys * 3);
                if *last == last_of_first {
                    ScanEvaluation::Skip
                } else {
                    ScanEvaluation::ReadData
                }
            },
            |_, _| ScanEvaluation::ReadData,
            |count: usize, _, _, _| Ok(count + 1),
            0,
        )
        .unwrap();
    assert_eq!(rest, 172);
    // The scan ends where the caller stops it.
    let stop = 200u16.to_be_bytes().to_vec();
    let before = tree
        .scan::<_, String, _, _, _>(
            &roots,
            &everything(),
            true,
            |_, _, _| ScanEvaluation::ReadData,
            |key, _| {
                if *key == stop {
                    ScanEvaluation::Stop
                } else {
                    ScanEvaluation::ReadData
                }
            },
            |count: usize, _, _, _| Ok(count + 1),
            0,
        )
        .unwrap();
    assert_eq!(before, 200);
}

#[test]
fn scans_end_with_the_callers_error() {
    let (roots, tree) = numbered(3);
    let outcome = tree.scan(
        &roots,
        &everything(),
        true,
        |_, _, _| ScanEvaluation::ReadData,
        |_, _| ScanEvaluation::ReadData,
        |count: usize, key, _, _| {
            if key[1] == 1 {
                Err(AbortError::Other(format!("after {}", count + 1)))
            } else {
                Ok(count + 1)
            }
        },
        0,
    );
    match outcome {
        Err(AbortError::Other(error)) => assert_eq!(error, "after 2"),
        _ => panic!("the scan went on"),
    }
}

#[test]
fn reduced_ranges() {
    let (roots, tree) = numbered(300);
    assert_eq!(
        tree.reduce(&roots, &everything()).unwrap(),
        Some(ReducedIndex {
            alive_keys: 300,
            total_bytes: 900,
        })
    );
    let range = KeyRange {
        start: Bound::Included(100u16.to_be_bytes().to_vec()),
        end: Bound::Excluded(200u16.to_be_bytes().to_vec()),
    };
    assert_eq!(
        tree.reduce(&roots, &range).unwrap(),
        Some(ReducedIndex {
            alive_keys: 100,
            total_bytes: 300,
        })
    );
    let nothing = KeyRange {
        start: Bound::Excluded(5u16.to_be_bytes().to_vec()),
        end: Bound::Excluded(6u16.to_be_bytes().to_vec()),
    };
    assert_eq!(
        tree.reduce(&roots, &nothing).unwrap(),
        Some(ReducedIndex {
            alive_keys: 0,
            total_bytes: 0,
        })
    );
}

#[test]
fn changes_are_read_under_the_trees_own_vault() {
    let mut roots = database();
    let tree = roots
        .tree(Versioned::tree("t").with_vault(Vault::new(42)))
        .unwrap();
    tree.set(&mut roots, bytes("k"), bytes("v"), &mut MemoryFileManager)
        .unwrap();
    let sequence = tree.current_sequence_id(&roots, None);
    assert_eq!(tree.get(&roots, b"k").unwrap(), Some(bytes("v")));
    let read = tree.get_multiple_by_sequence(&roots, &[sequence]).unwrap();
    assert_eq!(read.len(), 1);
    assert_eq!(read[&sequence], (bytes("k"), Some(bytes("v"))));
    assert_eq!(
        tree.get_multiple_indexes_by_sequence(&roots, &[sequence]).unwrap().len(),
        1
    );
    assert_eq!(
        tree.get_multiple_with_indexes_by_sequence(&roots, &[sequence]).unwrap()[&sequence].value,
        Some(bytes("v"))
    );
    let range = SequenceRange {
        start: Bound::Unbounded,
        end: Bound::Unbounded,
    };
    let count = tree
        .scan_sequences::<_, String, _, _>(
            &roots,
            &range,
            true,
            |_| ScanEvaluation::ReadData,
            |count: usize, _, _| Ok(count + 1),
            0,
        )
        .unwrap();
    assert_eq!(count, 1);
    // Another vault is refused, as it is for other reads.
    let other = roots.tree(Versioned::tree("t")).unwrap();
    assert!(matches!(
        other.get_multiple_by_sequence(&roots, &[sequence]).unwrap_err().kind,
        ErrorKind::VaultMismatch
    ));
}

#[test]
fn modifications_list_the_keys_that_differ() {
    let (mut roots, tree) = filled::<Versioned>(&["a", "b"]);
    // In a versioned tree even the same value is a change.
    let results = tree
        .modify(
            &mut roots,
            vec![bytes("a")],
            Operation::SetAll(bytes("value of a")),
            &mut MemoryFileManager,
        )
        .unwrap();
    assert_eq!(results.len(), 1);
    assert_eq!(tree.get_index(&roots, b"a").unwrap(), Some(index(Some(3), 10)));
    // A key that is removed twice is listed once.
    let results = tree
        .modify(
            &mut roots,
            vec![bytes("b"), bytes("b"), bytes("c")],
            Operation::Remove,
            &mut MemoryFileManager,
        )
        .unwrap();
    assert_eq!(results.len(), 1);
    assert_eq!(results[0].key, b"b");
    assert_eq!(tree.get(&roots, b"a").unwrap(), Some(bytes("value of a")));
}
