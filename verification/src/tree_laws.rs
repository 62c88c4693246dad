//! What holds of every tree, whatever is done to it.

use vstd::prelude::*;
use crate::bytes;
use crate::listing;
use crate::model::{Change, KeyIndex, KeyRange, Operation, TreeModel};

verus! {

/// A key that has been set holds the value, and every other key what it held.
pub proof fn law_set_then_lookup(tree: TreeModel, key: Seq<u8>, value: Seq<u8>, other: Seq<u8>)
    ensures
        tree.set(key, value).value_of(key) == Some(value),
        tree.set(key, value).index_of(key) == Some(tree.next_index(value)),
        other != key ==> tree.set(key, value).lookup(other) == tree.lookup(other),
{
}

/// A key that has been removed holds nothing, and every other key what it held.
pub proof fn law_remove_then_lookup(tree: TreeModel, key: Seq<u8>, other: Seq<u8>)
    ensures
        tree.remove(key).lookup(key) is None,
        other != key ==> tree.remove(key).lookup(other) == tree.lookup(other),
        tree.lookup(key) is None ==> tree.remove(key) == tree,
{
}

/// Setting a key again to the value that it held before it was removed brings the
/// value back.
pub proof fn law_remove_then_set(tree: TreeModel, key: Seq<u8>)
    requires
        tree.lookup(key) is Some,
    ensures
        tree.remove(key).set(key, tree.contents[key].value).value_of(key) == tree.value_of(key),
        tree.remove(key).set(key, tree.contents[key].value).contents.dom() == tree.contents.dom(),
{
    assert(tree.remove(key).set(key, tree.contents[key].value).contents.dom()
        =~= tree.contents.dom());
}

/// Every change of a versioned tree is recorded behind those before it, under the
/// next number.
pub proof fn law_changes_are_numbered(tree: TreeModel, key: Seq<u8>, value: Option<Seq<u8>>)
    requires
        tree.versioned,
        value is Some || tree.lookup(key) is Some,
    ensures
        tree.put(key, value).changes == tree.changes.push(Change { key, value }),
        tree.put(key, value).has_change(tree.changes.len() as int + 1),
{
}

/// A versioned tree never forgets a change: whatever is put into it, the changes
/// that were made before stay, under the same numbers.
pub proof fn law_changes_are_kept(tree: TreeModel, key: Seq<u8>, value: Option<Seq<u8>>, id: int)
    requires
        tree.has_change(id),
    ensures
        tree.put(key, value).has_change(id),
        tree.put(key, value).changes[id - 1] == tree.changes[id - 1],
{
}

/// In a versioned tree the sequence id of a key leads to the change that stored its
/// current value.
pub proof fn law_sequence_leads_to_value(tree: TreeModel, key: Seq<u8>)
    requires
        tree.consistent(),
        tree.versioned,
        tree.contents.contains_key(key),
    ensures
        tree.contents[key].index.sequence_id matches Some(id) && {
            &&& tree.has_change(id as int)
            &&& tree.changes[id - 1] == (Change { key, value: tree.value_of(key) })
            &&& tree.index_at(id as int) == tree.index_of(key)
        },
{
}

/// A versioned tree holds what its changes have left, so two with the same changes
/// hold the same.
pub proof fn law_changes_decide(a: TreeModel, b: TreeModel)
    requires
        a.consistent(),
        b.consistent(),
        a.versioned,
        b.versioned,
        a.changes == b.changes,
    ensures
        a == b,
{
}

/// A modification of a single key does what setting or removing that key does.
pub proof fn law_modify_one(tree: TreeModel, key: Seq<u8>, operation: Operation)
    ensures
        tree.modified(seq![key], operation, 1) == tree.put(key, operation.value_at(0)),
{
    assert(tree.modified(seq![key], operation, 0) == tree);
}

/// After a modification of different keys each holds what the operation gives it,
/// and every other key what it held.
pub proof fn law_modify_each(
    tree: TreeModel,
    keys: Seq<Seq<u8>>,
    operation: Operation,
    n: nat,
    key: Seq<u8>,
)
    requires
        keys.no_duplicates(),
        n <= keys.len(),
    ensures
        forall|i: int|
            0 <= i < n ==> tree.modified(keys, operation, n).value_of(#[trigger] keys[i])
                == operation.value_at(i),
        !keys.take(n as int).contains(key) ==> tree.modified(keys, operation, n).lookup(key)
            == tree.lookup(key),
    decreases n,
{
    if n > 0 {
        let m = (n - 1) as nat;
        law_modify_each(tree, keys, operation, m, key);
        if !keys.take(n as int).contains(key) {
            assert(keys.take(n as int)[n - 1] == keys[n - 1]);
            if keys.take(m as int).contains(key) {
                let i = keys.take(m as int).index_of(key);
                assert(keys.take(n as int)[i] == key);
            }
        }
    }
}

/// `key` is among the keys that a modification reports.
pub open spec fn reported(results: Seq<(Seq<u8>, Option<KeyIndex>)>, key: Seq<u8>) -> bool {
    exists|i: int| 0 <= i < results.len() && (#[trigger] results[i]).0 == key
}

/// A modification reports exactly the keys whose value or index it has changed, and it
/// changes no other keys than those that it is given. In a tree that is not versioned,
/// setting a key to the value that it holds already changes nothing, but is reported
/// too: that is left out here.
pub proof fn law_modifications_are_reported(
    tree: TreeModel,
    keys: Seq<Seq<u8>>,
    operation: Operation,
    key: Seq<u8>,
)
    requires
        tree.consistent(),
        tree.changes.len() + keys.len() <= u64::MAX,
        tree.versioned || operation is Remove || forall|k: Seq<u8>| #[trigger]
            keys.contains(k) ==> tree.modified(keys, operation, keys.len()).value_of(k)
                != tree.value_of(k),
    ensures
        ({
            let after = tree.modified(keys, operation, keys.len());
            let results = tree.modifications(keys, operation, keys.len());
            &&& reported(results, key) <==> after.lookup(key) != tree.lookup(key)
            &&& reported(results, key) ==> keys.contains(key)
            &&& !keys.contains(key) ==> after.lookup(key) == tree.lookup(key)
        }),
{
    lemma_reported(tree, keys, operation, keys.len(), key);
    assert(keys.take(keys.len() as int) =~= keys);
}

proof fn lemma_reported(
    tree: TreeModel,
    keys: Seq<Seq<u8>>,
    operation: Operation,
    n: nat,
    key: Seq<u8>,
)
    requires
        tree.consistent(),
        n <= keys.len(),
        tree.changes.len() + n <= u64::MAX,
    ensures
        ({
            let after = tree.modified(keys, operation, n);
            let results = tree.modifications(keys, operation, n);
            let given = keys.take(n as int).contains(key);
            &&& after.versioned == tree.versioned
            &&& tree.changes.len() <= after.changes.len() <= tree.changes.len() + n
            &&& !given ==> after.lookup(key) == tree.lookup(key) && !reported(results, key)
            &&& given && operation is Remove ==> {
                &&& after.lookup(key) is None
                &&& reported(results, key) <==> tree.lookup(key) is Some
            }
            &&& given && !(operation is Remove) ==> {
                &&& reported(results, key)
                &&& after.lookup(key) is Some
                &&& tree.versioned ==> (after.index_of(key)->0.sequence_id matches Some(id) && id
                    > tree.changes.len())
            }
        }),
    decreases n,
{
    if n == 0 {
        assert(keys.take(0) =~= Seq::empty());
    } else {
        let m = (n - 1) as nat;
        let last = keys[n - 1];
        lemma_reported(tree, keys, operation, m, key);
        let done = tree.modifications(keys, operation, m);
        let results = tree.modifications(keys, operation, n);
        assert(keys.take(n as int) =~= keys.take(m as int).push(last));
        assert(keys.take(n as int).contains(key) <==> keys.take(m as int).contains(key) || key
            == last) by {
            if keys.take(m as int).contains(key) {
                let i = keys.take(m as int).index_of(key);
                assert(keys.take(n as int)[i] == key);
            }
            assert(keys.take(n as int)[n - 1] == last);
        }
        if reported(done, key) {
            let i = choose|i: int| 0 <= i < done.len() && (#[trigger] done[i]).0 == key;
            assert(results[i] == done[i]);
        }
        if results.len() > done.len() {
            assert(results[done.len() as int].0 == last);
        }
        assert(reported(results, key) <==> reported(done, key) || (results.len() > done.len()
            && last == key)) by {
            if reported(results, key) {
                let i = choose|i: int| 0 <= i < results.len() && (#[trigger] results[i]).0 == key;
                if i < done.len() {
                    assert(done[i] == results[i]);
                }
            }
        }
    }
}

/// The keys of a tree stand in ascending order, and each once.
pub proof fn law_keys_listed(tree: TreeModel)
    requires
        tree.consistent(),
    ensures
        listing::lists(tree.keys(), tree.contents.dom()),
        tree.keys().len() == tree.contents.dom().len(),
{
    listing::lemma_listing_exists(tree.contents.dom());
    listing::lemma_listing_len(tree.keys(), tree.contents.dom());
}

/// The keys within a range stand in ascending order, and they are the keys of the
/// tree that the range covers.
pub proof fn law_range_listed(tree: TreeModel, range: KeyRange)
    requires
        tree.consistent(),
    ensures
        listing::ascending(tree.keys_in(range)),
        forall|key: Seq<u8>| #[trigger]
            tree.keys_in(range).contains(key) <==> tree.contents.contains_key(key) && range.covers(
                key,
            ),
{
    let set = tree.contents.dom().filter(|key: Seq<u8>| range.covers(key));
    assert(set.subset_of(tree.contents.dom()));
    vstd::set_lib::lemma_set_subset_finite(tree.contents.dom(), set);
    listing::lemma_listing_exists(set);
}

/// A range without ends holds all keys.
pub proof fn law_unbounded_range(tree: TreeModel, range: KeyRange)
    requires
        range.start is Unbounded,
        range.end is Unbounded,
    ensures
        tree.keys_in(range) == tree.keys(),
{
    assert(tree.contents.dom().filter(|key: Seq<u8>| range.covers(key)) =~= tree.contents.dom());
}

/// The first key comes before every other, and every other before the last. A tree
/// has a first and a last key unless it has none.
pub proof fn law_first_and_last(tree: TreeModel, key: Seq<u8>)
    requires
        tree.consistent(),
        tree.contents.contains_key(key),
    ensures
        tree.first_of() matches Some(first) && tree.contents.contains_key(first) && bytes::key_le(
            first,
            key,
        ),
        tree.last_of() matches Some(last) && tree.contents.contains_key(last) && bytes::key_le(
            key,
            last,
        ),
{
    law_keys_listed(tree);
    let keys = tree.keys();
    assert(keys.contains(key));
    let i = keys.index_of(key);
    assert(keys.contains(keys[0]));
    assert(keys.contains(keys[keys.len() - 1]));
}

} // verus!
