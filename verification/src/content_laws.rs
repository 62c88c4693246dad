//! What reading and changing a tree comes to, key by key and change by change.

use vstd::prelude::*;
use crate::basic_laws;
use crate::bytes;
use crate::listing;
use crate::model;
use crate::model::{
    Change, KeyIndex, KeyRange, ModificationResult, Operation, SequenceEntry, SequenceId,
    SequenceIndex, TreeModel,
};
use crate::reduce::ReducedIndex;
use crate::sequences;
use crate::tree_laws;

verus! {

// ---- Changes ----

/// A tree without keys holds nothing, and nothing was ever changed in it.
pub proof fn law_empty_tree(versioned: bool, key: Seq<u8>)
    ensures
        TreeModel::empty(versioned).versioned == versioned,
        !TreeModel::empty(versioned).contents.contains_key(key),
        TreeModel::empty(versioned).changes.len() == 0,
{
}

/// What a key holds is found under it, as a whole, by its value and by its index. A key
/// that is not there holds nothing.
pub proof fn law_lookups_agree(tree: TreeModel, key: Seq<u8>)
    ensures
        tree.contents.contains_key(key) ==> {
            &&& tree.lookup(key) == Some(tree.contents[key])
            &&& tree.value_of(key) == Some(tree.contents[key].value)
            &&& tree.index_of(key) == Some(tree.contents[key].index)
        },
        !tree.contents.contains_key(key) ==> {
            &&& tree.lookup(key) is None
            &&& tree.value_of(key) is None
            &&& tree.index_of(key) is None
        },
{
}

/// Setting a key stores the value under it, with an index that gives the length of the
/// value, and in a versioned tree the number of this change. The change is kept behind all
/// earlier ones in a versioned tree. Everything else stays.
pub proof fn law_set_changes_one_key(tree: TreeModel, key: Seq<u8>, value: Seq<u8>)
    requires
        tree.changes.len() < u64::MAX,
        value.len() <= u64::MAX,
    ensures
        ({
            let after = tree.set(key, value);
            &&& after.versioned == tree.versioned
            &&& after.contents.dom() == tree.contents.dom().insert(key)
            &&& after.contents[key].value == value
            &&& after.contents[key].index == tree.next_index(value)
            &&& tree.next_index(value).value_length == value.len()
            &&& tree.versioned ==> (tree.next_index(value).sequence_id matches Some(id) && id
                == tree.changes.len() + 1)
            &&& !tree.versioned ==> tree.next_index(value).sequence_id is None
            &&& forall|other: Seq<u8>|
                other != key && #[trigger] tree.contents.contains_key(other)
                    ==> after.contents[other] == tree.contents[other]
            &&& tree.versioned ==> after.changes == tree.changes.push(
                Change { key, value: Some(value) },
            )
            &&& !tree.versioned ==> after.changes == tree.changes
        }),
{
    assert(tree.set(key, value).contents.dom() =~= tree.contents.dom().insert(key));
}

/// Removing a key takes it out, and keeps the change in a versioned tree if the key was
/// there. Everything else stays.
pub proof fn law_remove_changes_one_key(tree: TreeModel, key: Seq<u8>)
    ensures
        ({
            let after = tree.remove(key);
            &&& after.versioned == tree.versioned
            &&& after.contents.dom() == tree.contents.dom().remove(key)
            &&& forall|other: Seq<u8>|
                other != key && #[trigger] tree.contents.contains_key(other)
                    ==> after.contents[other] == tree.contents[other]
            &&& tree.versioned && tree.contents.contains_key(key) ==> after.changes
                == tree.changes.push(Change { key, value: None })
            &&& !tree.versioned || !tree.contents.contains_key(key) ==> after.changes
                == tree.changes
        }),
{
    assert(tree.remove(key).contents.dom() =~= tree.contents.dom().remove(key));
}

/// Putting a value under a key sets it, and putting none removes it.
pub proof fn law_put_sets_or_removes(tree: TreeModel, key: Seq<u8>, value: Seq<u8>)
    ensures
        tree.put(key, Some(value)) == tree.set(key, value),
        tree.put(key, None) == tree.remove(key),
{
}

/// After a modification, each of the keys holds what the operation gave it last: the one
/// value of all, or the value in its own place, with the length of that value, or nothing.
/// Keys that were not given hold what they held.
pub proof fn law_modified_keys(
    tree: TreeModel,
    keys: Seq<Seq<u8>>,
    operation: Operation,
    i: int,
    other: Seq<u8>,
)
    requires
        operation matches Operation::SetEach(values) ==> values@.len() == keys.len(),
        0 <= i < keys.len(),
        forall|j: int| i < j < keys.len() ==> #[trigger] keys[j] != keys[i],
    ensures
        ({
            let after = tree.modified(keys, operation, keys.len());
            &&& after.versioned == tree.versioned
            &&& match operation {
                Operation::SetAll(value) => {
                    &&& after.contents.contains_key(keys[i])
                    &&& after.contents[keys[i]].value == value@
                    &&& after.contents[keys[i]].index.value_length == value@.len() as u64
                },
                Operation::SetEach(values) => {
                    &&& after.contents.contains_key(keys[i])
                    &&& after.contents[keys[i]].value == values@[i]@
                    &&& after.contents[keys[i]].index.value_length == values@[i]@.len() as u64
                },
                Operation::Remove => !after.contents.contains_key(keys[i]),
            }
            &&& !keys.contains(other) ==> {
                &&& after.contents.contains_key(other) == tree.contents.contains_key(other)
                &&& after.contents[other] == tree.contents[other]
            }
        }),
{
    lemma_modified_keys(tree, keys, operation, i, other, keys.len());
    assert(keys.take(keys.len() as int) =~= keys);
}

proof fn lemma_modified_keys(
    tree: TreeModel,
    keys: Seq<Seq<u8>>,
    operation: Operation,
    i: int,
    other: Seq<u8>,
    n: nat,
)
    requires
        0 <= i < keys.len(),
        n <= keys.len(),
        forall|j: int| i < j < n ==> #[trigger] keys[j] != keys[i],
    ensures
        ({
            let after = tree.modified(keys, operation, n);
            &&& after.versioned == tree.versioned
            &&& i < n ==> match operation.value_at(i) {
                Some(value) => {
                    &&& after.contents.contains_key(keys[i])
                    &&& after.contents[keys[i]].value == value
                    &&& after.contents[keys[i]].index.value_length == value.len() as u64
                },
                None => !after.contents.contains_key(keys[i]),
            }
            &&& !keys.take(n as int).contains(other) ==> {
                &&& after.contents.contains_key(other) == tree.contents.contains_key(other)
                &&& after.contents[other] == tree.contents[other]
            }
        }),
    decreases n,
{
    if n > 0 {
        let m = (n - 1) as nat;
        lemma_modified_keys(tree, keys, operation, i, other, m);
        if !keys.take(n as int).contains(other) {
            assert(keys.take(n as int)[n - 1] == keys[n - 1]);
            if keys.take(m as int).contains(other) {
                let j = keys.take(m as int).index_of(other);
                assert(keys.take(n as int)[j] == other);
            }
        }
        if i < m {
            assert(keys[n - 1] != keys[i]);
        }
    }
}

/// A modification fits any number of keys, but for one that gives each key a value of its
/// own: it fits if there are as many values as keys.
pub proof fn law_modifications_fit(operation: Operation, count: nat)
    ensures
        operation.fits(count) <==> !(operation matches Operation::SetEach(values) && values@.len()
            != count),
{
}

/// Setting several keys at once reports each of them, in the order in which they were
/// given, with the index that the key got. In a versioned tree each has made one change,
/// in that order.
pub proof fn law_set_modifications(tree: TreeModel, keys: Seq<Seq<u8>>, operation: Operation)
    requires
        operation is SetAll || operation is SetEach,
        operation matches Operation::SetEach(values) ==> values@.len() == keys.len(),
        tree.changes.len() + keys.len() <= u64::MAX,
    ensures
        ({
            let given = |i: int|
                match operation {
                    Operation::SetAll(value) => value@,
                    Operation::SetEach(values) => values@[i]@,
                    Operation::Remove => Seq::<u8>::empty(),
                };
            let after = tree.modified(keys, operation, keys.len());
            let results = tree.modifications(keys, operation, keys.len());
            &&& results.len() == keys.len()
            &&& forall|i: int|
                0 <= i < keys.len() ==> {
                    &&& (#[trigger] results[i]).0 == keys[i]
                    &&& results[i].1 matches Some(index) && {
                        &&& index.value_length == given(i).len() as u64
                        &&& tree.versioned ==> (index.sequence_id matches Some(id) && id
                            == tree.changes.len() + i + 1)
                        &&& !tree.versioned ==> index.sequence_id is None
                    }
                }
            &&& tree.versioned ==> {
                &&& after.changes.len() == tree.changes.len() + keys.len()
                &&& after.changes.take(tree.changes.len() as int) == tree.changes
                &&& forall|i: int|
                    0 <= i < keys.len() ==> #[trigger] after.changes[tree.changes.len() + i] == (
                    Change { key: keys[i], value: Some(given(i)) })
            }
            &&& !tree.versioned ==> after.changes == tree.changes
        }),
{
    lemma_set_modifications(tree, keys, operation, keys.len());
}

proof fn lemma_set_modifications(
    tree: TreeModel,
    keys: Seq<Seq<u8>>,
    operation: Operation,
    n: nat,
)
    requires
        operation is SetAll || operation is SetEach,
        n <= keys.len(),
        tree.changes.len() + keys.len() <= u64::MAX,
    ensures
        ({
            let after = tree.modified(keys, operation, n);
            let results = tree.modifications(keys, operation, n);
            &&& after.versioned == tree.versioned
            &&& results.len() == n
            &&& forall|i: int|
                0 <= i < n ==> {
                    &&& (#[trigger] results[i]).0 == keys[i]
                    &&& results[i].1 matches Some(index) && {
                        &&& index.value_length == operation.value_at(i)->0.len() as u64
                        &&& tree.versioned ==> (index.sequence_id matches Some(id) && id
                            == tree.changes.len() + i + 1)
                        &&& !tree.versioned ==> index.sequence_id is None
                    }
                }
            &&& tree.versioned ==> {
                &&& after.changes.len() == tree.changes.len() + n
                &&& after.changes.take(tree.changes.len() as int) == tree.changes
                &&& forall|i: int|
                    0 <= i < n ==> #[trigger] after.changes[tree.changes.len() + i] == (Change {
                        key: keys[i],
                        value: Some(operation.value_at(i)->0),
                    })
            }
            &&& !tree.versioned ==> after.changes == tree.changes
        }),
    decreases n,
{
    if n == 0 {
        assert(tree.changes.take(tree.changes.len() as int) =~= tree.changes);
    } else {
        let m = (n - 1) as nat;
        lemma_set_modifications(tree, keys, operation, m);
        let before = tree.modified(keys, operation, m);
        let after = tree.modified(keys, operation, n);
        if tree.versioned {
            assert(after.changes.take(tree.changes.len() as int) =~= before.changes.take(
                tree.changes.len() as int,
            ));
        }
    }
}

/// Removing several keys at once reports those that were there, each once, in the order in
/// which they were given, without an index. In a versioned tree each of them has made one
/// change, in that order.
pub proof fn law_remove_modifications(tree: TreeModel, keys: Seq<Seq<u8>>)
    requires
        keys.no_duplicates(),
    ensures
        ({
            let after = tree.modified(keys, Operation::Remove, keys.len());
            let results = tree.modifications(keys, Operation::Remove, keys.len());
            let there = keys.filter(|key: Seq<u8>| tree.contents.contains_key(key));
            &&& results == there.map_values(|key: Seq<u8>| (key, None::<KeyIndex>))
            &&& tree.versioned ==> after.changes == tree.changes + there.map_values(
                |key: Seq<u8>| Change { key, value: None },
            )
            &&& !tree.versioned ==> after.changes == tree.changes
        }),
{
    lemma_remove_modifications(tree, keys, keys.len());
    assert(keys.take(keys.len() as int) =~= keys);
}

proof fn lemma_remove_modifications(tree: TreeModel, keys: Seq<Seq<u8>>, n: nat)
    requires
        keys.no_duplicates(),
        n <= keys.len(),
    ensures
        ({
            let after = tree.modified(keys, Operation::Remove, n);
            let results = tree.modifications(keys, Operation::Remove, n);
            let there = keys.take(n as int).filter(|key: Seq<u8>| tree.contents.contains_key(key));
            &&& after.versioned == tree.versioned
            &&& forall|j: int|
                n <= j < keys.len() ==> after.contents.contains_key(#[trigger] keys[j])
                    == tree.contents.contains_key(keys[j])
            &&& results == there.map_values(|key: Seq<u8>| (key, None::<KeyIndex>))
            &&& tree.versioned ==> after.changes == tree.changes + there.map_values(
                |key: Seq<u8>| Change { key, value: None },
            )
            &&& !tree.versioned ==> after.changes == tree.changes
        }),
    decreases n,
{
    reveal(Seq::filter);
    let pred = |key: Seq<u8>| tree.contents.contains_key(key);
    let as_result = |key: Seq<u8>| (key, None::<KeyIndex>);
    let as_change = |key: Seq<u8>| Change { key, value: None };
    let there = keys.take(n as int).filter(pred);
    let after = tree.modified(keys, Operation::Remove, n);
    let results = tree.modifications(keys, Operation::Remove, n);
    if n == 0 {
        assert(there =~= Seq::empty());
        assert(results =~= there.map_values(as_result));
        assert(tree.changes + there.map_values(as_change) =~= tree.changes);
    } else {
        let m = (n - 1) as nat;
        lemma_remove_modifications(tree, keys, m);
        assert(keys.take(n as int).drop_last() =~= keys.take(m as int));
        let earlier = keys.take(m as int).filter(pred);
        let last = keys[n - 1];
        assert(keys.take(n as int).last() == last);
        if tree.contents.contains_key(last) {
            assert(there =~= earlier.push(last));
            assert(there.map_values(as_result) =~= earlier.map_values(as_result).push(
                as_result(last),
            ));
            assert(tree.changes + there.map_values(as_change) =~= (tree.changes
                + earlier.map_values(as_change)).push(as_change(last)));
        } else {
            assert(there =~= earlier);
        }
        assert(results =~= there.map_values(as_result));
        if tree.versioned {
            assert(after.changes =~= tree.changes + there.map_values(as_change));
        }
    }
}

// ---- What is handed out ----

/// Keys, values and indexes are handed out as they stand, each in its place.
pub proof fn law_handed_out_in_place(
    pairs: Seq<(Vec<u8>, Vec<u8>)>,
    indexed: Seq<(Vec<u8>, KeyIndex)>,
    triples: Seq<(Vec<u8>, Vec<u8>, KeyIndex)>,
    changed: Seq<ModificationResult>,
    keys: Seq<&[u8]>,
    owned: Seq<Vec<u8>>,
    i: int,
)
    ensures
        model::pairs(pairs).len() == pairs.len(),
        0 <= i < pairs.len() ==> model::pairs(pairs)[i] == (pairs[i].0@, pairs[i].1@),
        model::indexed(indexed).len() == indexed.len(),
        0 <= i < indexed.len() ==> model::indexed(indexed)[i] == (indexed[i].0@, indexed[i].1),
        model::triples(triples).len() == triples.len(),
        0 <= i < triples.len() ==> model::triples(triples)[i] == (
            triples[i].0@,
            triples[i].1@,
            triples[i].2,
        ),
        model::changed(changed).len() == changed.len(),
        0 <= i < changed.len() ==> model::changed(changed)[i] == (
            changed[i].key@,
            changed[i].index,
        ),
        bytes::all_of(keys).len() == keys.len(),
        0 <= i < keys.len() ==> bytes::all_of(keys)[i] == keys[i]@,
        bytes::all_owned(owned).len() == owned.len(),
        0 <= i < owned.len() ==> bytes::all_owned(owned)[i] == owned[i]@,
{
}

/// A value, a key with its value, and a value with its index are handed out as they stand,
/// or not at all where there is none.
pub proof fn law_handed_out_if_any(
    value: Option<Vec<u8>>,
    expected: Option<&[u8]>,
    entry: Option<(Vec<u8>, KeyIndex)>,
    pair: Option<(Vec<u8>, Vec<u8>)>,
)
    ensures
        (bytes::optional(value) is Some) == (value is Some),
        value is Some ==> bytes::optional(value)->0 == value->0@,
        (model::expected_bytes(expected) is Some) == (expected is Some),
        expected is Some ==> model::expected_bytes(expected)->0 == expected->0@,
        (model::entry_of(entry) is Some) == (entry is Some),
        entry matches Some((value, index)) ==> {
            &&& model::entry_of(entry)->0.value == value@
            &&& model::entry_of(entry)->0.index == index
        },
        (model::pair_of(pair) is Some) == (pair is Some),
        pair matches Some((key, value)) ==> model::pair_of(pair)->0 == (key@, value@),
{
}

// ---- Reading keys ----

/// Of several keys, those are read that the tree holds, in the order in which they were
/// given, each with what it holds.
pub proof fn law_several_keys_are_read(
    tree: TreeModel,
    keys: Seq<&[u8]>,
    pairs: Seq<(Vec<u8>, Vec<u8>)>,
    indexed: Seq<(Vec<u8>, KeyIndex)>,
    triples: Seq<(Vec<u8>, Vec<u8>, KeyIndex)>,
)
    requires
        model::pairs(pairs) == tree.values_at(tree.found(bytes::all_of(keys))),
        model::indexed(indexed) == tree.indexes_at(tree.found(bytes::all_of(keys))),
        model::triples(triples) == tree.entries_at(tree.found(bytes::all_of(keys))),
    ensures
        ({
            let there = keys.map_values(|key: &[u8]| key@).filter(
                |key: Seq<u8>| tree.contents.contains_key(key),
            );
            &&& pairs.len() == there.len()
            &&& indexed.len() == there.len()
            &&& triples.len() == there.len()
            &&& forall|i: int|
                0 <= i < there.len() ==> {
                    &&& (#[trigger] pairs[i]).0@ == there[i]
                    &&& pairs[i].1@ == tree.contents[there[i]].value
                }
            &&& forall|i: int|
                0 <= i < there.len() ==> {
                    &&& (#[trigger] indexed[i]).0@ == there[i]
                    &&& indexed[i].1 == tree.contents[there[i]].index
                }
            &&& forall|i: int|
                0 <= i < there.len() ==> {
                    &&& (#[trigger] triples[i]).0@ == there[i]
                    &&& triples[i].1@ == tree.contents[there[i]].value
                    &&& triples[i].2 == tree.contents[there[i]].index
                }
        }),
{
    let there = keys.map_values(|key: &[u8]| key@).filter(
        |key: Seq<u8>| tree.contents.contains_key(key),
    );
    assert(keys.map_values(|key: &[u8]| key@) =~= bytes::all_of(keys));
    assert(tree.found(bytes::all_of(keys)) == there);
    assert(model::pairs(pairs).len() == there.len());
    assert(model::indexed(indexed).len() == there.len());
    assert(model::triples(triples).len() == there.len());
    assert forall|i: int| 0 <= i < there.len() implies {
        &&& (#[trigger] pairs[i]).0@ == there[i]
        &&& pairs[i].1@ == tree.contents[there[i]].value
    } by {
        assert(model::pairs(pairs)[i] == tree.values_at(there)[i]);
    }
    assert forall|i: int| 0 <= i < there.len() implies {
        &&& (#[trigger] indexed[i]).0@ == there[i]
        &&& indexed[i].1 == tree.contents[there[i]].index
    } by {
        assert(model::indexed(indexed)[i] == tree.indexes_at(there)[i]);
    }
    assert forall|i: int| 0 <= i < there.len() implies {
        &&& (#[trigger] triples[i]).0@ == there[i]
        &&& triples[i].1@ == tree.contents[there[i]].value
        &&& triples[i].2 == tree.contents[there[i]].index
    } by {
        assert(model::triples(triples)[i] == tree.entries_at(there)[i]);
    }
}

/// Of a range, exactly those keys are read that the tree holds between its ends, each once
/// and in ascending order, with what they hold.
pub proof fn law_range_is_read(
    tree: TreeModel,
    range: KeyRange,
    pairs: Seq<(Vec<u8>, Vec<u8>)>,
    indexed: Seq<(Vec<u8>, KeyIndex)>,
    triples: Seq<(Vec<u8>, Vec<u8>, KeyIndex)>,
)
    requires
        tree.consistent(),
        model::pairs(pairs) == tree.values_at(tree.keys_in(range)),
        model::indexed(indexed) == tree.indexes_at(tree.keys_in(range)),
        model::triples(triples) == tree.entries_at(tree.keys_in(range)),
    ensures
        forall|i: int, j: int|
            0 <= i < j < pairs.len() ==> bytes::key_lt(
                (#[trigger] pairs[i]).0@,
                (#[trigger] pairs[j]).0@,
            ),
        forall|key: Seq<u8>| #[trigger]
            tree.contents.contains_key(key) && range.covers(key) ==> exists|i: int|
                0 <= i < pairs.len() && (#[trigger] pairs[i]).0@ == key,
        forall|i: int|
            0 <= i < pairs.len() ==> {
                &&& tree.contents.contains_key((#[trigger] pairs[i]).0@)
                &&& range.covers(pairs[i].0@)
                &&& pairs[i].1@ == tree.contents[pairs[i].0@].value
            },
        indexed.len() == pairs.len(),
        triples.len() == pairs.len(),
        forall|i: int|
            0 <= i < pairs.len() ==> {
                &&& (#[trigger] indexed[i]).0@ == pairs[i].0@
                &&& indexed[i].1 == tree.contents[pairs[i].0@].index
            },
        forall|i: int|
            0 <= i < pairs.len() ==> {
                &&& (#[trigger] triples[i]).0@ == pairs[i].0@
                &&& triples[i].1@ == pairs[i].1@
                &&& triples[i].2 == tree.contents[pairs[i].0@].index
            },
{
    let keys = tree.keys_in(range);
    tree_laws::law_range_listed(tree, range);
    assert(model::pairs(pairs).len() == keys.len());
    assert(model::indexed(indexed).len() == keys.len());
    assert(model::triples(triples).len() == keys.len());
    assert forall|i: int| 0 <= i < pairs.len() implies (#[trigger] pairs[i]).0@ == keys[i]
        && pairs[i].1@ == tree.contents[keys[i]].value by {
        assert(model::pairs(pairs)[i] == tree.values_at(keys)[i]);
    }
    assert forall|i: int| 0 <= i < pairs.len() implies (#[trigger] indexed[i]).0@ == keys[i]
        && indexed[i].1 == tree.contents[keys[i]].index by {
        assert(model::indexed(indexed)[i] == tree.indexes_at(keys)[i]);
    }
    assert forall|i: int| 0 <= i < pairs.len() implies (#[trigger] triples[i]).0@ == keys[i]
        && triples[i].1@ == tree.contents[keys[i]].value && triples[i].2
        == tree.contents[keys[i]].index by {
        assert(model::triples(triples)[i] == tree.entries_at(keys)[i]);
    }
    assert forall|i: int, j: int| 0 <= i < j < pairs.len() implies bytes::key_lt(
        (#[trigger] pairs[i]).0@,
        (#[trigger] pairs[j]).0@,
    ) by {
        assert(bytes::key_lt(keys[i], keys[j]));
    }
    assert forall|key: Seq<u8>| #[trigger]
        tree.contents.contains_key(key) && range.covers(key) implies exists|i: int|
        0 <= i < pairs.len() && (#[trigger] pairs[i]).0@ == key by {
        assert(keys.contains(key));
        let i = keys.index_of(key);
        assert(pairs[i].0@ == key);
    }
    assert forall|i: int| 0 <= i < pairs.len() implies {
        &&& tree.contents.contains_key((#[trigger] pairs[i]).0@)
        &&& range.covers(pairs[i].0@)
    } by {
        assert(keys.contains(keys[i]));
    }
}

/// The first key comes before every other key of the tree, and the last behind. Only a
/// tree without keys has neither. Both are read with their values.
pub proof fn law_ends_are_read(
    tree: TreeModel,
    first_key: Option<Vec<u8>>,
    last_key: Option<Vec<u8>>,
    first: Option<(Vec<u8>, Vec<u8>)>,
    last: Option<(Vec<u8>, Vec<u8>)>,
    key: Seq<u8>,
)
    requires
        tree.consistent(),
        bytes::optional(first_key) == tree.first_of(),
        bytes::optional(last_key) == tree.last_of(),
        model::pair_of(first) == tree.with_value(tree.first_of()),
        model::pair_of(last) == tree.with_value(tree.last_of()),
    ensures
        tree.contents.contains_key(key) ==> {
            &&& first_key matches Some(found) && {
                &&& tree.contents.contains_key(found@)
                &&& found@ == key || bytes::key_lt(found@, key)
            }
            &&& last_key matches Some(found) && {
                &&& tree.contents.contains_key(found@)
                &&& found@ == key || bytes::key_lt(key, found@)
            }
            &&& first matches Some((found, value)) && {
                &&& found@ == first_key->0@
                &&& value@ == tree.contents[found@].value
            }
            &&& last matches Some((found, value)) && {
                &&& found@ == last_key->0@
                &&& value@ == tree.contents[found@].value
            }
        },
        first_key is Some || last_key is Some || first is Some || last is Some ==> exists|
            held: Seq<u8>,
        | #[trigger]
            tree.contents.contains_key(held),
{
    if tree.contents.contains_key(key) {
        tree_laws::law_first_and_last(tree, key);
    }
    tree_laws::law_keys_listed(tree);
    let keys = tree.keys();
    if keys.len() > 0 {
        assert(keys.contains(keys[0]));
        assert(tree.contents.contains_key(keys[0]));
    }
}

/// A range amounts to the number of its keys and to the length of their values together,
/// each as far as it fits.
pub proof fn law_range_is_reduced(tree: TreeModel, range: KeyRange, reduced: ReducedIndex)
    requires
        tree.consistent(),
        reduced == ReducedIndex::of(tree.key_indexes(tree.keys_in(range))),
    ensures
        ({
            let keys = tree.contents.dom().filter(|key: Seq<u8>| range.covers(key));
            let total = tree.keys_in(range).fold_left(
                0int,
                |sum: int, key: Seq<u8>| sum + tree.contents[key].value.len(),
            );
            &&& reduced.alive_keys == if keys.len() <= u64::MAX {
                keys.len()
            } else {
                u64::MAX as nat
            }
            &&& reduced.total_bytes == if total <= u64::MAX {
                total
            } else {
                u64::MAX as int
            }
        }),
{
    let set = tree.contents.dom().filter(|key: Seq<u8>| range.covers(key));
    let keys = tree.keys_in(range);
    tree_laws::law_range_listed(tree, range);
    assert(listing::lists(keys, set));
    listing::lemma_listing_len(keys, set);
    basic_laws::law_reduced_is_sum(tree.key_indexes(keys));
    assert forall|i: int| 0 <= i < keys.len() implies tree.contents.contains_key(
        #[trigger] keys[i],
    ) by {
        assert(keys.contains(keys[i]));
    }
    lemma_lengths(tree, keys);
}

proof fn lemma_lengths(tree: TreeModel, keys: Seq<Seq<u8>>)
    requires
        tree.consistent(),
        forall|i: int| 0 <= i < keys.len() ==> tree.contents.contains_key(#[trigger] keys[i]),
    ensures
        keys.fold_left(0int, |sum: int, key: Seq<u8>| sum + tree.contents[key].value.len())
            == tree.key_indexes(keys).fold_left(
            0int,
            |sum: int, index: KeyIndex| sum + index.value_length,
        ),
    decreases keys.len(),
{
    if keys.len() > 0 {
        let init = keys.drop_last();
        assert forall|i: int| 0 <= i < init.len() implies tree.contents.contains_key(
            #[trigger] init[i],
        ) by {
            assert(init[i] == keys[i]);
        }
        lemma_lengths(tree, init);
        assert(tree.key_indexes(keys).drop_last() =~= tree.key_indexes(init));
        assert(tree.contents.contains_key(keys[keys.len() - 1]));
        assert(tree.key_indexes(keys).last() == tree.contents[keys.last()].index);
    }
}

/// What holds of every tree: it has finitely many keys, each index gives the length of the
/// value, and in a versioned tree it names the change that stored it. A tree that is not
/// versioned keeps no changes.
pub proof fn law_trees_are_consistent(tree: TreeModel, key: Seq<u8>)
    requires
        tree.consistent(),
    ensures
        tree.contents.dom().finite(),
        !tree.versioned ==> tree.changes.len() == 0,
        tree.contents.contains_key(key) ==> {
            let stored = tree.contents[key];
            &&& stored.index.value_length == stored.value.len()
            &&& !tree.versioned ==> stored.index.sequence_id is None
            &&& tree.versioned ==> (stored.index.sequence_id matches Some(id) && {
                &&& 1 <= id <= tree.changes.len()
                &&& tree.changes[id - 1].key == key
                &&& tree.changes[id - 1].value == Some(stored.value)
            })
        },
{
}

/// In a versioned tree, a key holds what the last change to it has stored, under the number
/// of that change, and nothing where that change removed it or where there was none.
pub proof fn law_last_change_counts(tree: TreeModel, key: Seq<u8>, id: int)
    requires
        tree.consistent(),
        tree.versioned,
        0 <= id <= tree.changes.len(),
        id > 0 ==> tree.changes[id - 1].key == key,
        forall|later: int|
            id <= later < tree.changes.len() ==> (#[trigger] tree.changes[later]).key != key,
    ensures
        id == 0 || tree.changes[id - 1].value is None ==> !tree.contents.contains_key(key),
        id > 0 && tree.changes[id - 1].value is Some ==> {
            &&& tree.contents.contains_key(key)
            &&& tree.contents[key].value == tree.changes[id - 1].value->0
            &&& tree.contents[key].index.sequence_id matches Some(number) && number == id
        },
{
    lemma_last_change(tree.changes, key, id);
}

proof fn lemma_last_change(changes: Seq<Change>, key: Seq<u8>, id: int)
    requires
        changes.len() <= u64::MAX,
        0 <= id <= changes.len(),
        id > 0 ==> changes[id - 1].key == key,
        forall|later: int| id <= later < changes.len() ==> (#[trigger] changes[later]).key != key,
    ensures
        ({
            let held = TreeModel::replay(changes);
            &&& id == 0 || changes[id - 1].value is None ==> !held.contains_key(key)
            &&& id > 0 && changes[id - 1].value is Some ==> {
                &&& held.contains_key(key)
                &&& held[key].value == changes[id - 1].value->0
                &&& held[key].index.sequence_id matches Some(number) && number == id
            }
        }),
    decreases changes.len(),
{
    if changes.len() > id {
        let before = changes.drop_last();
        assert forall|later: int| id <= later < before.len() implies (
        #[trigger] before[later]).key != key by {
            assert(before[later] == changes[later]);
        }
        if id > 0 {
            assert(before[id - 1] == changes[id - 1]);
        }
        lemma_last_change(before, key, id);
        assert(changes[changes.len() - 1].key != key);
    }
}

// ---- Reading changes ----

/// The numbers of changes run from 1 to how many there are. Of several numbers those are
/// read under which a change was made, each with the key of the change and the value that
/// it stored, or none where it removed the key.
pub proof fn law_changes_are_read(
    tree: TreeModel,
    ids: Seq<SequenceId>,
    values: Map<SequenceId, (Vec<u8>, Option<Vec<u8>>)>,
    entries: Map<SequenceId, SequenceEntry>,
    id: SequenceId,
)
    requires
        sequences::holds_values(values, tree, ids),
        sequences::holds_entries(entries, tree, ids),
    ensures
        values.contains_key(id) <==> ids.contains(id) && 1 <= id <= tree.changes.len(),
        entries.contains_key(id) <==> ids.contains(id) && 1 <= id <= tree.changes.len(),
        values.contains_key(id) ==> {
            let change = tree.changes[id - 1];
            &&& values[id].0@ == change.key
            &&& (values[id].1 is Some) == (change.value is Some)
            &&& change.value is Some ==> values[id].1->0@ == change.value->0
        },
        entries.contains_key(id) ==> {
            let change = tree.changes[id - 1];
            &&& entries[id].index.key@ == change.key
            &&& entries[id].index.sequence == id
            &&& (entries[id].index.index is Some) == (change.value is Some)
            &&& change.value is Some ==> {
                &&& entries[id].index.index->0.sequence_id == Some(id)
                &&& entries[id].index.index->0.value_length == change.value->0.len() as u64
            }
            &&& (entries[id].value is Some) == (change.value is Some)
            &&& change.value is Some ==> entries[id].value->0@ == change.value->0
        },
{
    if values.contains_key(id) {
        law_handed_out_if_any(values[id].1, None, None, None);
    }
    if entries.contains_key(id) {
        law_handed_out_if_any(entries[id].value, None, None, None);
    }
}

/// Of several numbers, those of changes are described in the order in which they were
/// given, each by the key of the change and by the index that it gave the key, or none
/// where it removed the key.
pub proof fn law_changes_are_described(
    tree: TreeModel,
    ids: Seq<SequenceId>,
    read: Seq<SequenceIndex>,
)
    requires
        sequences::lists_indexes(read, tree, ids),
    ensures
        ({
            let made = ids.filter(|id: u64| 1 <= id <= tree.changes.len());
            &&& read.len() == made.len()
            &&& forall|i: int|
                0 <= i < read.len() ==> {
                    let change = tree.changes[made[i] - 1];
                    &&& (#[trigger] read[i]).sequence == made[i]
                    &&& read[i].key@ == change.key
                    &&& (read[i].index is Some) == (change.value is Some)
                    &&& change.value is Some ==> {
                        &&& read[i].index->0.sequence_id == Some(made[i])
                        &&& read[i].index->0.value_length == change.value->0.len() as u64
                    }
                }
        }),
{
    let made = ids.filter(|id: u64| 1 <= id <= tree.changes.len());
    let ours = |id: u64| tree.has_change(id as int);
    let theirs = |id: u64| 1 <= id <= tree.changes.len();
    assert(ours =~= theirs);
    assert(tree.made(ids) == made);
    assert forall|i: int| 0 <= i < read.len() implies (#[trigger] read[i]).describes(
        tree,
        made[i],
    ) by {}
}

} // verus!
