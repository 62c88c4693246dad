//! What a scan meets.

use vstd::prelude::*;
use crate::bytes;
use crate::error::AbortError;
use crate::listing;
use crate::model::{
    KeyIndex, KeyRange, KeySequence, ScanEvaluation, SequenceRange, TreeModel,
};
use crate::reduce::ReducedIndex;
use crate::scan;
use crate::scan::Visit;
use crate::sequences;
use crate::tree_laws;

verus! {

/// The keys within `range` of the first `n` nodes, one node behind the other.
pub open spec fn nodes_joined(tree: TreeModel, range: KeyRange, n: nat) -> Seq<Seq<u8>>
    decreases n,
{
    if n == 0 {
        Seq::empty()
    } else {
        nodes_joined(tree, range, (n - 1) as nat) + tree.node_keys_in(n - 1, range)
    }
}

proof fn lemma_nodes_joined(tree: TreeModel, range: KeyRange, n: nat)
    requires
        n <= tree.node_count(),
    ensures
        ({
            let end = if n == 0 {
                0
            } else {
                tree.node_end(n - 1)
            };
            &&& 0 <= end <= tree.keys().len()
            &&& nodes_joined(tree, range, n) == tree.keys().take(end).filter(
                |key: Seq<u8>| range.covers(key),
            )
        }),
    decreases n,
{
    let pred = |key: Seq<u8>| range.covers(key);
    let keys = tree.keys();
    if n == 0 {
        reveal(Seq::filter);
        assert(keys.take(0).filter(pred) =~= Seq::empty());
    } else {
        lemma_nodes_joined(tree, range, (n - 1) as nat);
        let start = (n - 1) * scan::NODE_ORDER;
        let end = tree.node_end(n - 1);
        assert(keys.take(end) =~= keys.take(start) + tree.node_keys(n - 1));
        Seq::filter_distributes_over_add(keys.take(start), tree.node_keys(n - 1), pred);
    }
}

/// The nodes of a tree, one behind the other, hold the keys of a range in order and
/// each once: a scan that reads every node meets all of them.
pub proof fn law_nodes_cover_range(tree: TreeModel, range: KeyRange)
    requires
        tree.consistent(),
    ensures
        nodes_joined(tree, range, tree.node_count()) == tree.keys_in(range),
{
    let pred = |key: Seq<u8>| range.covers(key);
    tree_laws::law_keys_listed(tree);
    let keys = tree.keys();
    lemma_nodes_joined(tree, range, tree.node_count());
    assert(keys.take(keys.len() as int) =~= keys);
    let part = keys.filter(pred);
    assert(nodes_joined(tree, range, tree.node_count()) == part);
    lemma_filter_ascending(keys, pred);
    let set = tree.contents.dom().filter(pred);
    assert forall|key: Seq<u8>| #[trigger] part.contains(key) <==> set.contains(key) by {
        if part.contains(key) {
            let i = part.index_of(key);
            assert(pred(part[i]));
            assert(keys.contains(key)) by {
                keys.lemma_filter_contains_rev(pred, key);
            }
        }
        if set.contains(key) {
            assert(keys.contains(key));
            let i = keys.index_of(key);
            keys.lemma_filter_contains(pred, i);
        }
    }
    listing::lemma_listing_is(part, set);
}

proof fn lemma_filter_ascending(keys: Seq<Seq<u8>>, pred: spec_fn(Seq<u8>) -> bool)
    requires
        listing::ascending(keys),
    ensures
        listing::ascending(keys.filter(pred)),
    decreases keys.len(),
{
    reveal(Seq::filter);
    if keys.len() > 0 {
        let init = keys.drop_last();
        lemma_filter_ascending(init, pred);
        let part = init.filter(pred);
        assert forall|i: int| 0 <= i < part.len() implies bytes::key_lt(
            #[trigger] part[i],
            keys.last(),
        ) by {
            assert(part.contains(part[i]));
            init.lemma_filter_contains_rev(pred, part[i]);
            let j = init.index_of(part[i]);
            assert(keys[j] == part[i]);
        }
    }
}

/// The evaluator asks for every node to be read.
pub open spec fn reads_every_node<N: Fn(&Vec<u8>, &ReducedIndex, usize) -> ScanEvaluation>(
    evaluator: N,
) -> bool {
    forall|key: Vec<u8>, reduced: ReducedIndex, depth: usize, evaluation: ScanEvaluation|
        #[trigger] call_ensures(evaluator, (&key, &reduced, depth), evaluation) ==> evaluation
            == ScanEvaluation::ReadData
}

/// The evaluator asks for every key to be read.
pub open spec fn reads_every_key<K: Fn(&Vec<u8>, &KeyIndex) -> ScanEvaluation>(
    evaluator: K,
) -> bool {
    forall|key: Vec<u8>, index: KeyIndex, evaluation: ScanEvaluation|
        #[trigger] call_ensures(evaluator, (&key, &index), evaluation) ==> evaluation
            == ScanEvaluation::ReadData
}

/// The callback goes from state to state by `step`, and never fails.
pub open spec fn goes_by<
    A,
    E,
    D: Fn(A, &Vec<u8>, &KeyIndex, &Vec<u8>) -> Result<A, AbortError<E>>,
>(callback: D, step: spec_fn(A, Seq<u8>, KeyIndex, Seq<u8>) -> A) -> bool {
    forall|
        state: A,
        key: Vec<u8>,
        index: KeyIndex,
        value: Vec<u8>,
        answer: Result<A, AbortError<E>>,
    | #[trigger]
        call_ensures(callback, (state, &key, &index, &value), answer) ==> answer == Ok::<
            A,
            AbortError<E>,
        >(step(state, key@, index, value@))
}

/// The state that `step` leads to over `keys`, one behind the other.
pub open spec fn stepped<A>(
    tree: TreeModel,
    keys: Seq<Seq<u8>>,
    step: spec_fn(A, Seq<u8>, KeyIndex, Seq<u8>) -> A,
    state: A,
) -> A
    decreases keys.len(),
{
    if keys.len() == 0 {
        state
    } else {
        let held = tree.contents[keys[0]];
        stepped(tree, keys.drop_first(), step, step(state, keys[0], held.index, held.value))
    }
}

/// The keys within `range` of `nodes`, one node behind the other.
pub open spec fn keys_met(
    tree: TreeModel,
    nodes: Seq<int>,
    range: KeyRange,
    forwards: bool,
) -> Seq<Seq<u8>>
    decreases nodes.len(),
{
    if nodes.len() == 0 {
        Seq::empty()
    } else {
        scan::ordered(tree.node_keys_in(nodes[0], range), forwards) + keys_met(
            tree,
            nodes.drop_first(),
            range,
            forwards,
        )
    }
}

proof fn lemma_stepped_add<A>(
    tree: TreeModel,
    a: Seq<Seq<u8>>,
    b: Seq<Seq<u8>>,
    step: spec_fn(A, Seq<u8>, KeyIndex, Seq<u8>) -> A,
    state: A,
)
    ensures
        stepped(tree, a + b, step, state) == stepped(tree, b, step, stepped(tree, a, step, state)),
    decreases a.len(),
{
    if a.len() == 0 {
        assert(a + b =~= b);
    } else {
        let held = tree.contents[a[0]];
        assert((a + b).drop_first() =~= a.drop_first() + b);
        lemma_stepped_add(
            tree,
            a.drop_first(),
            b,
            step,
            step(state, a[0], held.index, held.value),
        );
    }
}

proof fn lemma_keys_stepped<
    A,
    E,
    K: Fn(&Vec<u8>, &KeyIndex) -> ScanEvaluation,
    D: Fn(A, &Vec<u8>, &KeyIndex, &Vec<u8>) -> Result<A, AbortError<E>>,
>(
    tree: TreeModel,
    keys: Seq<Seq<u8>>,
    evaluator: K,
    callback: D,
    step: spec_fn(A, Seq<u8>, KeyIndex, Seq<u8>) -> A,
    state: A,
    visit: Visit<A, E>,
)
    requires
        reads_every_key(evaluator),
        goes_by(callback, step),
        scan::keys_scanned(tree, keys, evaluator, callback, state, visit),
    ensures
        visit == Visit::<A, E>::Passed(stepped(tree, keys, step, state)),
    decreases keys.len(),
{
    if keys.len() > 0 {
        let held = tree.contents[keys[0]];
        let next = step(state, keys[0], held.index, held.value);
        lemma_keys_stepped(tree, keys.drop_first(), evaluator, callback, step, next, visit);
    }
}

proof fn lemma_nodes_stepped<
    A,
    E,
    N: Fn(&Vec<u8>, &ReducedIndex, usize) -> ScanEvaluation,
    K: Fn(&Vec<u8>, &KeyIndex) -> ScanEvaluation,
    D: Fn(A, &Vec<u8>, &KeyIndex, &Vec<u8>) -> Result<A, AbortError<E>>,
>(
    tree: TreeModel,
    nodes: Seq<int>,
    range: KeyRange,
    forwards: bool,
    node_evaluator: N,
    evaluator: K,
    callback: D,
    step: spec_fn(A, Seq<u8>, KeyIndex, Seq<u8>) -> A,
    state: A,
    outcome: Result<A, AbortError<E>>,
)
    requires
        reads_every_node(node_evaluator),
        reads_every_key(evaluator),
        goes_by(callback, step),
        scan::nodes_scanned(
            tree,
            nodes,
            range,
            forwards,
            node_evaluator,
            evaluator,
            callback,
            state,
            outcome,
        ),
    ensures
        outcome == Ok::<A, AbortError<E>>(
            stepped(tree, keys_met(tree, nodes, range, forwards), step, state),
        ),
    decreases nodes.len(),
{
    if nodes.len() > 0 {
        let wanted = scan::ordered(tree.node_keys_in(nodes[0], range), forwards);
        let rest = nodes.drop_first();
        let visit = choose|visit: Visit<A, E>|
            {
                &&& #[trigger] scan::keys_scanned(tree, wanted, evaluator, callback, state, visit)
                &&& match visit {
                    Visit::Passed(next) => scan::nodes_scanned(
                        tree,
                        rest,
                        range,
                        forwards,
                        node_evaluator,
                        evaluator,
                        callback,
                        next,
                        outcome,
                    ),
                    Visit::Stopped(next) => outcome == Ok::<A, AbortError<E>>(next),
                    Visit::Aborted(error) => outcome == Err::<A, AbortError<E>>(error),
                }
            };
        lemma_keys_stepped(tree, wanted, evaluator, callback, step, state, visit);
        let next = stepped(tree, wanted, step, state);
        lemma_nodes_stepped(
            tree,
            rest,
            range,
            forwards,
            node_evaluator,
            evaluator,
            callback,
            step,
            next,
            outcome,
        );
        lemma_stepped_add(tree, wanted, keys_met(tree, rest, range, forwards), step, state);
    }
}

proof fn lemma_keys_met_add(
    tree: TreeModel,
    a: Seq<int>,
    b: Seq<int>,
    range: KeyRange,
    forwards: bool,
)
    ensures
        keys_met(tree, a + b, range, forwards) == keys_met(tree, a, range, forwards) + keys_met(
            tree,
            b,
            range,
            forwards,
        ),
    decreases a.len(),
{
    if a.len() == 0 {
        assert(a + b =~= b);
        assert(keys_met(tree, a + b, range, forwards) =~= keys_met(tree, a, range, forwards)
            + keys_met(tree, b, range, forwards));
    } else {
        assert((a + b).drop_first() =~= a.drop_first() + b);
        lemma_keys_met_add(tree, a.drop_first(), b, range, forwards);
        assert(keys_met(tree, a + b, range, forwards) =~= keys_met(tree, a, range, forwards)
            + keys_met(tree, b, range, forwards));
    }
}

proof fn lemma_keys_met_one(tree: TreeModel, node: int, range: KeyRange, forwards: bool)
    ensures
        keys_met(tree, seq![node], range, forwards) == scan::ordered(
            tree.node_keys_in(node, range),
            forwards,
        ),
{
    let nodes = seq![node];
    assert(keys_met(tree, nodes.drop_first(), range, forwards) =~= Seq::empty());
    assert(keys_met(tree, nodes, range, forwards) =~= scan::ordered(
        tree.node_keys_in(node, range),
        forwards,
    ));
}

proof fn lemma_keys_met_backwards(tree: TreeModel, nodes: Seq<int>, range: KeyRange)
    ensures
        keys_met(tree, nodes.reverse(), range, false) == keys_met(
            tree,
            nodes,
            range,
            true,
        ).reverse(),
    decreases nodes.len(),
{
    if nodes.len() == 0 {
        assert(keys_met(tree, nodes.reverse(), range, false) =~= keys_met(
            tree,
            nodes,
            range,
            true,
        ).reverse());
    } else {
        let rest = nodes.drop_first();
        lemma_keys_met_backwards(tree, rest, range);
        assert(nodes.reverse() =~= rest.reverse() + seq![nodes[0]]);
        lemma_keys_met_add(tree, rest.reverse(), seq![nodes[0]], range, false);
        lemma_keys_met_one(tree, nodes[0], range, false);
        assert(keys_met(tree, nodes.reverse(), range, false) =~= keys_met(
            tree,
            nodes,
            range,
            true,
        ).reverse());
    }
}

proof fn lemma_keys_met_joined(tree: TreeModel, range: KeyRange, n: nat)
    ensures
        keys_met(
            tree,
            Seq::new(n, |node: int| node).filter(
                |node: int| tree.node_keys_in(node, range).len() > 0,
            ),
            range,
            true,
        ) == nodes_joined(tree, range, n),
    decreases n,
{
    reveal(Seq::filter);
    let pred = |node: int| tree.node_keys_in(node, range).len() > 0;
    let all = Seq::new(n, |node: int| node);
    if n == 0 {
        assert(all.filter(pred) =~= Seq::empty());
    } else {
        let before = Seq::new((n - 1) as nat, |node: int| node);
        lemma_keys_met_joined(tree, range, (n - 1) as nat);
        assert(all.drop_last() =~= before);
        let last = tree.node_keys_in(n - 1, range);
        if last.len() > 0 {
            assert(all.filter(pred) =~= before.filter(pred) + seq![n - 1]);
            lemma_keys_met_add(tree, before.filter(pred), seq![n - 1], range, true);
            lemma_keys_met_one(tree, n - 1, range, true);
        } else {
            assert(all.filter(pred) =~= before.filter(pred));
            assert(nodes_joined(tree, range, (n - 1) as nat) + last =~= nodes_joined(
                tree,
                range,
                (n - 1) as nat,
            ));
        }
    }
}

/// A scan comes to the keys of its range in order.
pub proof fn lemma_scan_meets(tree: TreeModel, range: KeyRange, forwards: bool)
    requires
        tree.consistent(),
    ensures
        keys_met(tree, scan::ordered(tree.nodes_in(range), forwards), range, forwards)
            == scan::ordered(tree.keys_in(range), forwards),
{
    lemma_keys_met_joined(tree, range, tree.node_count());
    lemma_keys_met_backwards(tree, tree.nodes_in(range), range);
    law_nodes_cover_range(tree, range);
}

/// A scan in which every node and every key is read, and whose callback does not fail,
/// hands the callback all keys within the range, each once, with their values, in
/// ascending order or in descending order.
pub proof fn law_full_scan_meets_range<
    A,
    E,
    N: Fn(&Vec<u8>, &ReducedIndex, usize) -> ScanEvaluation,
    K: Fn(&Vec<u8>, &KeyIndex) -> ScanEvaluation,
    D: Fn(A, &Vec<u8>, &KeyIndex, &Vec<u8>) -> Result<A, AbortError<E>>,
>(
    tree: TreeModel,
    range: KeyRange,
    forwards: bool,
    node_evaluator: N,
    evaluator: K,
    callback: D,
    step: spec_fn(A, Seq<u8>, KeyIndex, Seq<u8>) -> A,
    start: A,
    outcome: Result<A, AbortError<E>>,
)
    requires
        tree.consistent(),
        reads_every_node(node_evaluator),
        reads_every_key(evaluator),
        goes_by(callback, step),
        scan::nodes_scanned(
            tree,
            scan::ordered(tree.nodes_in(range), forwards),
            range,
            forwards,
            node_evaluator,
            evaluator,
            callback,
            start,
            outcome,
        ),
    ensures
        outcome == Ok::<A, AbortError<E>>(
            stepped(tree, scan::ordered(tree.keys_in(range), forwards), step, start),
        ),
{
    let nodes = tree.nodes_in(range);
    lemma_nodes_stepped(
        tree,
        scan::ordered(nodes, forwards),
        range,
        forwards,
        node_evaluator,
        evaluator,
        callback,
        step,
        start,
        outcome,
    );
    lemma_scan_meets(tree, range, forwards);
}

/// The evaluator asks for every change to be read.
pub open spec fn reads_every_change<K: Fn(&KeySequence) -> ScanEvaluation>(evaluator: K) -> bool {
    forall|change: KeySequence, evaluation: ScanEvaluation|
        #[trigger] call_ensures(evaluator, (&change,), evaluation) ==> evaluation
            == ScanEvaluation::ReadData
}

/// The callback goes from state to state by `step`, and never fails.
pub open spec fn goes_by_changes<
    A,
    E,
    D: Fn(A, &KeySequence, &Vec<u8>) -> Result<A, AbortError<E>>,
>(callback: D, step: spec_fn(A, Seq<u8>, int, Seq<u8>) -> A) -> bool {
    forall|state: A, change: KeySequence, value: Vec<u8>, answer: Result<A, AbortError<E>>|
        #[trigger] call_ensures(callback, (state, &change, &value), answer) ==> answer == Ok::<
            A,
            AbortError<E>,
        >(step(state, change.key@, change.sequence as int, value@))
}

/// The state that `step` leads to over the changes `ids`, one behind the other. A
/// change that removed its key comes without bytes.
pub open spec fn stepped_over_changes<A>(
    tree: TreeModel,
    ids: Seq<int>,
    step: spec_fn(A, Seq<u8>, int, Seq<u8>) -> A,
    state: A,
) -> A
    decreases ids.len(),
{
    if ids.len() == 0 {
        state
    } else {
        let change = tree.changes[ids[0] - 1];
        let value = match change.value {
            Some(value) => value,
            None => Seq::empty(),
        };
        stepped_over_changes(
            tree,
            ids.drop_first(),
            step,
            step(state, change.key, ids[0], value),
        )
    }
}

/// A scan in which every change is read, and whose callback does not fail, hands the
/// callback all of `ids` in turn, each once, with its key and its value.
pub proof fn law_full_scan_meets_changes<
    A,
    E,
    K: Fn(&KeySequence) -> ScanEvaluation,
    D: Fn(A, &KeySequence, &Vec<u8>) -> Result<A, AbortError<E>>,
>(
    tree: TreeModel,
    ids: Seq<int>,
    evaluator: K,
    callback: D,
    step: spec_fn(A, Seq<u8>, int, Seq<u8>) -> A,
    start: A,
    outcome: Result<A, AbortError<E>>,
)
    requires
        reads_every_change(evaluator),
        goes_by_changes(callback, step),
        sequences::changes_scanned(tree, ids, evaluator, callback, start, outcome),
    ensures
        outcome == Ok::<A, AbortError<E>>(stepped_over_changes(tree, ids, step, start)),
    decreases ids.len(),
{
    if ids.len() > 0 {
        let change = tree.changes[ids[0] - 1];
        let value = match change.value {
            Some(value) => value,
            None => Seq::empty(),
        };
        law_full_scan_meets_changes(
            tree,
            ids.drop_first(),
            evaluator,
            callback,
            step,
            step(start, change.key, ids[0], value),
            outcome,
        );
    }
}

/// The changes within a range are met in the order in which they were made, each once.
pub proof fn law_changes_in_order(tree: TreeModel, range: SequenceRange)
    ensures
        forall|i: int, j: int|
            0 <= i < j < tree.changes_in(range).len() ==> #[trigger] tree.changes_in(range)[i]
                < #[trigger] tree.changes_in(range)[j],
        forall|id: int| #[trigger]
            tree.changes_in(range).contains(id) <==> tree.has_change(id) && range.covers(id),
{
    lemma_changes_before(tree, range, tree.changes.len());
}

proof fn lemma_changes_before(tree: TreeModel, range: SequenceRange, n: nat)
    ensures
        ({
            let ids = Seq::new(n, |i: int| i + 1).filter(|id: int| range.covers(id));
            &&& forall|i: int, j: int|
                0 <= i < j < ids.len() ==> #[trigger] ids[i] < #[trigger] ids[j]
            &&& forall|id: int| #[trigger]
                ids.contains(id) <==> 1 <= id <= n && range.covers(id)
        }),
    decreases n,
{
    reveal(Seq::filter);
    let pred = |id: int| range.covers(id);
    let all = Seq::new(n, |i: int| i + 1);
    if n == 0 {
        assert(all.filter(pred) =~= Seq::empty());
    } else {
        let before = Seq::new((n - 1) as nat, |i: int| i + 1);
        lemma_changes_before(tree, range, (n - 1) as nat);
        assert(all.drop_last() =~= before);
        let ids = all.filter(pred);
        let earlier = before.filter(pred);
        assert forall|i: int| 0 <= i < earlier.len() implies #[trigger] earlier[i] < n by {
            assert(earlier.contains(earlier[i]));
        }
        if range.covers(n as int) {
            assert(ids =~= earlier.push(n as int));
            assert forall|id: int| #[trigger] ids.contains(id) <==> 1 <= id <= n && range.covers(
                id,
            ) by {
                if earlier.contains(id) {
                    let i = earlier.index_of(id);
                    assert(ids[i] == id);
                }
                assert(ids[ids.len() - 1] == n);
            }
        } else {
            assert(ids =~= earlier);
        }
    }
}

} // verus!
