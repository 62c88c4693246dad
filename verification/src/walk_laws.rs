//! What a scan hands over, step by step.
//!
//! A scan whose evaluators and whose callback answer by what they are given goes through
//! `states`: the state of the callback before each key that it comes to. It ends at the
//! first key at which the caller ends it, or behind the last.

use vstd::prelude::*;
use crate::bytes;
use crate::error::AbortError;
use crate::listing;
use crate::model::{
    KeyIndex, KeyRange, KeySequence, ScanEvaluation, SequenceRange, TreeModel,
};
use crate::reduce::ReducedIndex;
use crate::scan;
use crate::scan::Visit;
use crate::scan_laws;
use crate::sequences;
use crate::tree_laws;

verus! {

/// The node evaluator answers by `choice`.
pub open spec fn chooses<N: Fn(&Vec<u8>, &ReducedIndex, usize) -> ScanEvaluation>(
    evaluator: N,
    choice: spec_fn(Seq<u8>, ReducedIndex, usize) -> ScanEvaluation,
) -> bool {
    forall|key: Vec<u8>, reduced: ReducedIndex, depth: usize, evaluation: ScanEvaluation|
        #[trigger] call_ensures(evaluator, (&key, &reduced, depth), evaluation) ==> evaluation
            == choice(key@, reduced, depth)
}

/// The key evaluator answers by `answer`.
pub open spec fn answers<K: Fn(&Vec<u8>, &KeyIndex) -> ScanEvaluation>(
    evaluator: K,
    answer: spec_fn(Seq<u8>, KeyIndex) -> ScanEvaluation,
) -> bool {
    forall|key: Vec<u8>, index: KeyIndex, evaluation: ScanEvaluation|
        #[trigger] call_ensures(evaluator, (&key, &index), evaluation) ==> evaluation == answer(
            key@,
            index,
        )
}

/// The callback goes from state to state by `step`, which may fail.
pub open spec fn steps<
    A,
    E,
    D: Fn(A, &Vec<u8>, &KeyIndex, &Vec<u8>) -> Result<A, AbortError<E>>,
>(callback: D, step: spec_fn(A, Seq<u8>, KeyIndex, Seq<u8>) -> Result<A, AbortError<E>>) -> bool {
    forall|
        state: A,
        key: Vec<u8>,
        index: KeyIndex,
        value: Vec<u8>,
        outcome: Result<A, AbortError<E>>,
    | #[trigger]
        call_ensures(callback, (state, &key, &index, &value), outcome) ==> outcome == step(
            state,
            key@,
            index,
            value@,
        )
}

/// What becomes of `state` at a key for which `decision` was taken.
spec fn passes<A, E>(
    decision: ScanEvaluation,
    stepped: Result<A, AbortError<E>>,
    state: A,
    next: A,
) -> bool {
    match decision {
        ScanEvaluation::Stop => false,
        ScanEvaluation::Skip => next == state,
        ScanEvaluation::ReadData => stepped == Ok::<A, AbortError<E>>(next),
    }
}

/// The decision about a key, by what was answered about its node and about the key.
spec fn decided(node: ScanEvaluation, key: ScanEvaluation) -> ScanEvaluation {
    match node {
        ScanEvaluation::ReadData => key,
        _ => node,
    }
}

spec fn goes_through<A, E>(
    tree: TreeModel,
    keys: Seq<Seq<u8>>,
    chosen: spec_fn(Seq<u8>) -> ScanEvaluation,
    answer: spec_fn(Seq<u8>, KeyIndex) -> ScanEvaluation,
    step: spec_fn(A, Seq<u8>, KeyIndex, Seq<u8>) -> Result<A, AbortError<E>>,
    states: Seq<A>,
) -> bool {
    &&& 0 < states.len() <= keys.len() + 1
    &&& forall|i: int|
        0 <= i < states.len() - 1 ==> {
            let held = tree.contents[keys[i]];
            passes(
                decided(chosen(keys[i]), answer(keys[i], held.index)),
                step(states[i], keys[i], held.index, held.value),
                #[trigger] states[i],
                states[i + 1],
            )
        }
}

/// How the walk ends behind the last of `states`.
spec fn ends_with<A, E>(
    tree: TreeModel,
    keys: Seq<Seq<u8>>,
    chosen: spec_fn(Seq<u8>) -> ScanEvaluation,
    answer: spec_fn(Seq<u8>, KeyIndex) -> ScanEvaluation,
    step: spec_fn(A, Seq<u8>, KeyIndex, Seq<u8>) -> Result<A, AbortError<E>>,
    states: Seq<A>,
    visit: Visit<A, E>,
) -> bool {
    let n = states.len() - 1;
    let state = states[n];
    if n == keys.len() {
        visit == Visit::<A, E>::Passed(state)
    } else {
        let held = tree.contents[keys[n]];
        match decided(chosen(keys[n]), answer(keys[n], held.index)) {
            ScanEvaluation::Stop => visit == Visit::<A, E>::Stopped(state),
            ScanEvaluation::Skip => false,
            ScanEvaluation::ReadData => step(state, keys[n], held.index, held.value) matches Err(
                error,
            ) && visit == Visit::<A, E>::Aborted(error),
        }
    }
}

proof fn lemma_keys_walked<
    A,
    E,
    K: Fn(&Vec<u8>, &KeyIndex) -> ScanEvaluation,
    D: Fn(A, &Vec<u8>, &KeyIndex, &Vec<u8>) -> Result<A, AbortError<E>>,
>(
    tree: TreeModel,
    keys: Seq<Seq<u8>>,
    evaluator: K,
    callback: D,
    chosen: spec_fn(Seq<u8>) -> ScanEvaluation,
    answer: spec_fn(Seq<u8>, KeyIndex) -> ScanEvaluation,
    step: spec_fn(A, Seq<u8>, KeyIndex, Seq<u8>) -> Result<A, AbortError<E>>,
    states: Seq<A>,
    end: Visit<A, E>,
    visit: Visit<A, E>,
)
    requires
        answers(evaluator, answer),
        steps(callback, step),
        forall|i: int| 0 <= i < keys.len() ==> chosen(#[trigger] keys[i]) is ReadData,
        goes_through(tree, keys, chosen, answer, step, states),
        ends_with(tree, keys, chosen, answer, step, states, end),
        scan::keys_scanned(tree, keys, evaluator, callback, states[0], visit),
    ensures
        visit == end,
    decreases keys.len(),
{
    if keys.len() > 0 {
        let held = tree.contents[keys[0]];
        assert(chosen(keys[0]) is ReadData);
        if states.len() > 1 {
            let rest = keys.drop_first();
            let later = states.drop_first();
            assert(passes(
                decided(chosen(keys[0]), answer(keys[0], held.index)),
                step(states[0], keys[0], held.index, held.value),
                states[0],
                states[0int + 1],
            ));
            assert forall|i: int| 0 <= i < rest.len() implies chosen(
                #[trigger] rest[i],
            ) is ReadData by {
                assert(rest[i] == keys[i + 1]);
            }
            assert(goes_through(tree, rest, chosen, answer, step, later)) by {
                assert forall|i: int| 0 <= i < later.len() - 1 implies ({
                    let held = tree.contents[rest[i]];
                    passes(
                        decided(chosen(rest[i]), answer(rest[i], held.index)),
                        step(later[i], rest[i], held.index, held.value),
                        #[trigger] later[i],
                        later[i + 1],
                    )
                }) by {
                    assert(later[i] == states[i + 1]);
                    assert(rest[i] == keys[i + 1]);
                }
            }
            let n = later.len() - 1;
            if n < rest.len() {
                assert(rest[n] == keys[n + 1]);
            }
            lemma_keys_walked(
                tree,
                rest,
                evaluator,
                callback,
                chosen,
                answer,
                step,
                later,
                end,
                visit,
            );
        }
    }
}

/// The outcome of a scan, by how far its walk has come.
spec fn outcome_at<A, E>(visit: Visit<A, E>) -> Result<A, AbortError<E>> {
    match visit {
        Visit::Passed(state) => Ok(state),
        Visit::Stopped(state) => Ok(state),
        Visit::Aborted(error) => Err(error),
    }
}

proof fn lemma_part_through<A, E>(
    tree: TreeModel,
    first: Seq<Seq<u8>>,
    rest: Seq<Seq<u8>>,
    chosen: spec_fn(Seq<u8>) -> ScanEvaluation,
    answer: spec_fn(Seq<u8>, KeyIndex) -> ScanEvaluation,
    step: spec_fn(A, Seq<u8>, KeyIndex, Seq<u8>) -> Result<A, AbortError<E>>,
    states: Seq<A>,
    end: Visit<A, E>,
)
    requires
        goes_through(tree, first + rest, chosen, answer, step, states),
        ends_with(tree, first + rest, chosen, answer, step, states, end),
    ensures
        states.len() > first.len() ==> {
            &&& goes_through(tree, first, chosen, answer, step, states.take(first.len() as int + 1))
            &&& ends_with(
                tree,
                first,
                chosen,
                answer,
                step,
                states.take(first.len() as int + 1),
                Visit::<A, E>::Passed(states[first.len() as int]),
            )
            &&& goes_through(tree, rest, chosen, answer, step, states.skip(first.len() as int))
            &&& ends_with(
                tree,
                rest,
                chosen,
                answer,
                step,
                states.skip(first.len() as int),
                end,
            )
        },
        states.len() <= first.len() ==> {
            &&& goes_through(tree, first, chosen, answer, step, states)
            &&& ends_with(tree, first, chosen, answer, step, states, end)
        },
{
    let all = first + rest;
    let m = first.len() as int;
    if states.len() > m {
        let early = states.take(m + 1);
        let late = states.skip(m);
        assert forall|i: int| 0 <= i < early.len() - 1 implies ({
            let held = tree.contents[first[i]];
            passes(
                decided(chosen(first[i]), answer(first[i], held.index)),
                step(early[i], first[i], held.index, held.value),
                #[trigger] early[i],
                early[i + 1],
            )
        }) by {
            assert(early[i] == states[i]);
            assert(all[i] == first[i]);
        }
        assert forall|i: int| 0 <= i < late.len() - 1 implies ({
            let held = tree.contents[rest[i]];
            passes(
                decided(chosen(rest[i]), answer(rest[i], held.index)),
                step(late[i], rest[i], held.index, held.value),
                #[trigger] late[i],
                late[i + 1],
            )
        }) by {
            assert(late[i] == states[m + i]);
            assert(all[m + i] == rest[i]);
        }
        let n = states.len() - 1;
        if n < all.len() {
            assert(all[n] == rest[n - m]);
        }
    } else {
        assert forall|i: int| 0 <= i < states.len() - 1 implies ({
            let held = tree.contents[first[i]];
            passes(
                decided(chosen(first[i]), answer(first[i], held.index)),
                step(states[i], first[i], held.index, held.value),
                #[trigger] states[i],
                states[i + 1],
            )
        }) by {
            assert(all[i] == first[i]);
        }
        assert(all[states.len() - 1] == first[states.len() - 1]);
    }
}

/// A node that is passed over leaves the state as it was.
proof fn lemma_skipped<A, E>(
    tree: TreeModel,
    keys: Seq<Seq<u8>>,
    chosen: spec_fn(Seq<u8>) -> ScanEvaluation,
    answer: spec_fn(Seq<u8>, KeyIndex) -> ScanEvaluation,
    step: spec_fn(A, Seq<u8>, KeyIndex, Seq<u8>) -> Result<A, AbortError<E>>,
    states: Seq<A>,
    i: int,
)
    requires
        goes_through(tree, keys, chosen, answer, step, states),
        forall|j: int| 0 <= j < keys.len() ==> chosen(#[trigger] keys[j]) is Skip,
        0 <= i < states.len(),
    ensures
        states[i] == states[0],
    decreases i,
{
    if i > 0 {
        lemma_skipped(tree, keys, chosen, answer, step, states, i - 1);
        let held = tree.contents[keys[i - 1]];
        assert(passes(
            decided(chosen(keys[i - 1]), answer(keys[i - 1], held.index)),
            step(states[i - 1], keys[i - 1], held.index, held.value),
            states[i - 1],
            states[i - 1 + 1],
        ));
    }
}

/// What is answered about a node, by the key that stands last in it.
spec fn node_choice(
    tree: TreeModel,
    choice: spec_fn(Seq<u8>, ReducedIndex, usize) -> ScanEvaluation,
    node: int,
) -> ScanEvaluation {
    choice(
        tree.node_keys(node).last(),
        ReducedIndex::of(tree.key_indexes(tree.node_keys(node))),
        0,
    )
}

proof fn lemma_nodes_walked<
    A,
    E,
    N: Fn(&Vec<u8>, &ReducedIndex, usize) -> ScanEvaluation,
    K: Fn(&Vec<u8>, &KeyIndex) -> ScanEvaluation,
    D: Fn(A, &Vec<u8>, &KeyIndex, &Vec<u8>) -> Result<A, AbortError<E>>,
>(
    tree: TreeModel,
    nodes: Seq<int>,
    range: KeyRange,
    forwards: bool,
    node_evaluator: N,
    evaluator: K,
    callback: D,
    choice: spec_fn(Seq<u8>, ReducedIndex, usize) -> ScanEvaluation,
    chosen: spec_fn(Seq<u8>) -> ScanEvaluation,
    answer: spec_fn(Seq<u8>, KeyIndex) -> ScanEvaluation,
    step: spec_fn(A, Seq<u8>, KeyIndex, Seq<u8>) -> Result<A, AbortError<E>>,
    states: Seq<A>,
    end: Visit<A, E>,
    outcome: Result<A, AbortError<E>>,
)
    requires
        chooses(node_evaluator, choice),
        answers(evaluator, answer),
        steps(callback, step),
        forall|i: int|
            0 <= i < nodes.len() ==> tree.node_keys_in(#[trigger] nodes[i], range).len() > 0,
        forall|i: int, key: Seq<u8>|
            0 <= i < nodes.len() && #[trigger] tree.node_keys_in(nodes[i], range).contains(key)
                ==> chosen(key) == node_choice(tree, choice, nodes[i]),
        goes_through(
            tree,
            scan_laws::keys_met(tree, nodes, range, forwards),
            chosen,
            answer,
            step,
            states,
        ),
        ends_with(
            tree,
            scan_laws::keys_met(tree, nodes, range, forwards),
            chosen,
            answer,
            step,
            states,
            end,
        ),
        scan::nodes_scanned(
            tree,
            nodes,
            range,
            forwards,
            node_evaluator,
            evaluator,
            callback,
            states[0],
            outcome,
        ),
    ensures
        outcome == outcome_at(end),
    decreases nodes.len(),
{
    if nodes.len() > 0 {
        let node = nodes[0];
        let own = tree.node_keys_in(node, range);
        let wanted = scan::ordered(own, forwards);
        let rest = nodes.drop_first();
        let later = scan_laws::keys_met(tree, rest, range, forwards);
        let m = wanted.len() as int;
        assert(scan_laws::keys_met(tree, nodes, range, forwards) == wanted + later);
        assert forall|i: int| 0 <= i < wanted.len() implies chosen(#[trigger] wanted[i])
            == node_choice(tree, choice, node) by {
            if forwards {
                assert(own.contains(own[i]));
            } else {
                assert(own.contains(own[own.len() - 1 - i]));
            }
        }
        lemma_part_through(tree, wanted, later, chosen, answer, step, states, end);
        assert(tree.node_keys_in(nodes[0], range).len() > 0);
        assert((wanted + later)[0] == wanted[0]);
        assert forall|i: int| 0 <= i < rest.len() implies tree.node_keys_in(
            #[trigger] rest[i],
            range,
        ).len() > 0 by {
            assert(rest[i] == nodes[i + 1]);
        }
        assert forall|i: int, key: Seq<u8>|
            0 <= i < rest.len() && #[trigger] tree.node_keys_in(rest[i], range).contains(
                key,
            ) implies chosen(key) == node_choice(tree, choice, rest[i]) by {
            assert(rest[i] == nodes[i + 1]);
            assert(tree.node_keys_in(nodes[i + 1], range).contains(key));
        }
        match node_choice(tree, choice, node) {
            ScanEvaluation::Stop => {
                if states.len() > 1 {
                    let key = wanted[0];
                    let held = tree.contents[key];
                    assert(passes(
                        decided(chosen(key), answer(key, held.index)),
                        step(states[0], key, held.index, held.value),
                        states[0],
                        states[0int + 1],
                    ));
                }
            },
            ScanEvaluation::Skip => {
                if states.len() > m {
                    lemma_skipped(
                        tree,
                        wanted,
                        chosen,
                        answer,
                        step,
                        states.take(m + 1),
                        m,
                    );
                    assert(states.skip(m)[0] == states[0]);
                    lemma_nodes_walked(
                        tree,
                        rest,
                        range,
                        forwards,
                        node_evaluator,
                        evaluator,
                        callback,
                        choice,
                        chosen,
                        answer,
                        step,
                        states.skip(m),
                        end,
                        outcome,
                    );
                } else {
                    assert(chosen(wanted[states.len() - 1]) is Skip);
                }
            },
            ScanEvaluation::ReadData => {
                let visit = choose|visit: Visit<A, E>|
                    {
                        &&& #[trigger] scan::keys_scanned(
                            tree,
                            wanted,
                            evaluator,
                            callback,
                            states[0],
                            visit,
                        )
                        &&& match visit {
                            Visit::Passed(next) => scan::nodes_scanned(
                                tree,
                                rest,
                                range,
                                forwards,
                                node_evaluator,
                                evaluator,
                                callback,
                                next,
                                outcome,
                            ),
                            Visit::Stopped(next) => outcome == Ok::<A, AbortError<E>>(next),
                            Visit::Aborted(error) => outcome == Err::<A, AbortError<E>>(error),
                        }
                    };
                if states.len() > m {
                    lemma_keys_walked(
                        tree,
                        wanted,
                        evaluator,
                        callback,
                        chosen,
                        answer,
                        step,
                        states.take(m + 1),
                        Visit::<A, E>::Passed(states[m]),
                        visit,
                    );
                    lemma_nodes_walked(
                        tree,
                        rest,
                        range,
                        forwards,
                        node_evaluator,
                        evaluator,
                        callback,
                        choice,
                        chosen,
                        answer,
                        step,
                        states.skip(m),
                        end,
                        outcome,
                    );
                } else {
                    lemma_keys_walked(
                        tree,
                        wanted,
                        evaluator,
                        callback,
                        chosen,
                        answer,
                        step,
                        states,
                        end,
                        visit,
                    );
                }
            },
        }
    }
}

/// What is answered about the node of `key`, where `every` lists the keys of the tree.
pub open spec fn asked_about(
    tree: TreeModel,
    every: Seq<Seq<u8>>,
    choice: spec_fn(Seq<u8>, ReducedIndex, usize) -> ScanEvaluation,
    key: Seq<u8>,
) -> ScanEvaluation {
    let first = every.index_of(key) / (scan::NODE_ORDER as int) * scan::NODE_ORDER;
    let own = every.skip(first).take(
        if every.len() - first < scan::NODE_ORDER {
            every.len() - first
        } else {
            scan::NODE_ORDER as int
        },
    );
    choice(
        own.last(),
        ReducedIndex::of(own.map_values(|key: Seq<u8>| tree.contents[key].index)),
        0,
    )
}

proof fn lemma_asked_about(
    tree: TreeModel,
    every: Seq<Seq<u8>>,
    choice: spec_fn(Seq<u8>, ReducedIndex, usize) -> ScanEvaluation,
    range: KeyRange,
    node: int,
    key: Seq<u8>,
)
    requires
        listing::ascending(every),
        tree.keys() == every,
        0 <= node < tree.node_count(),
        tree.node_keys_in(node, range).contains(key),
    ensures
        asked_about(tree, every, choice, key) == node_choice(tree, choice, node),
{
    let own = tree.node_keys(node);
    let pred = |key: Seq<u8>| range.covers(key);
    own.lemma_filter_contains_rev(pred, key);
    let j = own.index_of(key);
    let first = node * scan::NODE_ORDER;
    assert(own[j] == every[first + j]);
    let place = every.index_of(key);
    assert(every[first + j] == key);
    assert(every.contains(key));
    if place < first + j {
        bytes::lemma_key_lt_irreflexive(key);
        assert(bytes::key_lt(every[place], every[first + j]));
    } else if place > first + j {
        bytes::lemma_key_lt_irreflexive(key);
        assert(bytes::key_lt(every[first + j], every[place]));
    }
    assert(place == first + j);
    let size = if every.len() - first < scan::NODE_ORDER {
        every.len() - first
    } else {
        scan::NODE_ORDER as int
    };
    assert(place / (scan::NODE_ORDER as int) * scan::NODE_ORDER == first);
    assert(every.skip(first).take(size) =~= own);
    assert(own.map_values(|key: Seq<u8>| tree.contents[key].index) =~= tree.key_indexes(own));
}

/// The nodes that a scan comes to hold keys of the range, and there are no others.
proof fn lemma_nodes_in(tree: TreeModel, range: KeyRange, forwards: bool, i: int)
    requires
        0 <= i < tree.nodes_in(range).len(),
    ensures
        ({
            let node = scan::ordered(tree.nodes_in(range), forwards)[i];
            &&& 0 <= node < tree.node_count()
            &&& tree.node_keys_in(node, range).len() > 0
        }),
{
    let nodes = tree.nodes_in(range);
    let all = Seq::new(tree.node_count(), |node: int| node);
    let pred = |node: int| tree.node_keys_in(node, range).len() > 0;
    let j = if forwards {
        i
    } else {
        nodes.len() - 1 - i
    };
    assert(nodes == all.filter(pred));
    all.lemma_filter_len(pred);
    assert(nodes.contains(nodes[j]));
    all.lemma_filter_contains_rev(pred, nodes[j]);
    all.lemma_filter_pred(pred, j);
    let k = all.index_of(nodes[j]);
    assert(all[k] == nodes[j]);
}

/// Listed the other way round, keys stand in the other order.
proof fn lemma_descending(keys: Seq<Seq<u8>>, set: Set<Seq<u8>>)
    requires
        forall|i: int, j: int|
            0 <= i < j < keys.len() ==> bytes::key_lt(#[trigger] keys[j], #[trigger] keys[i]),
        forall|key: Seq<u8>| #[trigger] keys.contains(key) <==> set.contains(key),
    ensures
        listing::lists(keys.reverse(), set),
        keys.reverse().reverse() == keys,
{
    let back = keys.reverse();
    assert forall|key: Seq<u8>| #[trigger] back.contains(key) <==> set.contains(key) by {
        if back.contains(key) {
            let i = back.index_of(key);
            assert(keys[keys.len() - 1 - i] == key);
            assert(keys.contains(key));
        }
        if set.contains(key) {
            assert(keys.contains(key));
            let i = keys.index_of(key);
            assert(back[keys.len() - 1 - i] == key);
        }
    }
    assert(back.reverse() =~= keys);
}

/// A scan comes to the keys of the range in ascending order, or in descending order, each
/// once, and to no others. A key is passed over if its node or the key itself is to be
/// skipped. It is handed to the callback, with its index and its value, if both are to be
/// read, and the state that the callback returns is handed on. The scan ends where its
/// node or the key itself is to stop it, where the callback fails, or behind the last key,
/// and the state at that point is the outcome, or the error of the callback.
pub proof fn law_scan_goes_key_by_key<
    A,
    E,
    N: Fn(&Vec<u8>, &ReducedIndex, usize) -> ScanEvaluation,
    K: Fn(&Vec<u8>, &KeyIndex) -> ScanEvaluation,
    D: Fn(A, &Vec<u8>, &KeyIndex, &Vec<u8>) -> Result<A, AbortError<E>>,
>(
    tree: TreeModel,
    range: KeyRange,
    forwards: bool,
    node_evaluator: N,
    evaluator: K,
    callback: D,
    choice: spec_fn(Seq<u8>, ReducedIndex, usize) -> ScanEvaluation,
    answer: spec_fn(Seq<u8>, KeyIndex) -> ScanEvaluation,
    step: spec_fn(A, Seq<u8>, KeyIndex, Seq<u8>) -> Result<A, AbortError<E>>,
    every: Seq<Seq<u8>>,
    keys: Seq<Seq<u8>>,
    states: Seq<A>,
    outcome: Result<A, AbortError<E>>,
)
    requires
        tree.consistent(),
        chooses(node_evaluator, choice),
        answers(evaluator, answer),
        steps(callback, step),
        forall|i: int, j: int|
            0 <= i < j < every.len() ==> bytes::key_lt(#[trigger] every[i], #[trigger] every[j]),
        forall|key: Seq<u8>| #[trigger]
            every.contains(key) <==> tree.contents.contains_key(key),
        forall|i: int, j: int|
            forwards && 0 <= i < j < keys.len() ==> bytes::key_lt(
                #[trigger] keys[i],
                #[trigger] keys[j],
            ),
        forall|i: int, j: int|
            !forwards && 0 <= i < j < keys.len() ==> bytes::key_lt(
                #[trigger] keys[j],
                #[trigger] keys[i],
            ),
        forall|key: Seq<u8>| #[trigger]
            keys.contains(key) <==> tree.contents.contains_key(key) && range.covers(key),
        0 < states.len() <= keys.len() + 1,
        forall|i: int|
            0 <= i < states.len() - 1 ==> {
                let held = tree.contents[keys[i]];
                let node = asked_about(tree, every, choice, keys[i]);
                let own = answer(keys[i], held.index);
                ||| (node is Skip || node is ReadData && own is Skip) && states[i + 1]
                    == #[trigger] states[i]
                ||| node is ReadData && own is ReadData && step(
                    states[i],
                    keys[i],
                    held.index,
                    held.value,
                ) == Ok::<A, AbortError<E>>(states[i + 1])
            },
        scan::nodes_scanned(
            tree,
            scan::ordered(tree.nodes_in(range), forwards),
            range,
            forwards,
            node_evaluator,
            evaluator,
            callback,
            states[0],
            outcome,
        ),
    ensures
        ({
            let n = states.len() - 1;
            let state = states[n];
            let held = tree.contents[keys[n]];
            let node = asked_about(tree, every, choice, keys[n]);
            let own = answer(keys[n], held.index);
            &&& n == keys.len() ==> outcome == Ok::<A, AbortError<E>>(state)
            &&& n < keys.len() && (node is Stop || node is ReadData && own is Stop) ==> outcome
                == Ok::<A, AbortError<E>>(state)
            &&& n < keys.len() && node is ReadData && own is ReadData ==> (step(
                state,
                keys[n],
                held.index,
                held.value,
            ) matches Err(error) ==> outcome == Err::<A, AbortError<E>>(error))
        }),
{
    let nodes = scan::ordered(tree.nodes_in(range), forwards);
    let chosen = |key: Seq<u8>| asked_about(tree, every, choice, key);
    let set = tree.contents.dom().filter(|key: Seq<u8>| range.covers(key));
    assert(listing::lists(every, tree.contents.dom()));
    listing::lemma_listing_is(every, tree.contents.dom());
    tree_laws::law_range_listed(tree, range);
    if forwards {
        assert(listing::lists(keys, set));
        listing::lemma_listing_is(keys, set);
    } else {
        lemma_descending(keys, set);
        listing::lemma_listing_is(keys.reverse(), set);
    }
    scan_laws::lemma_scan_meets(tree, range, forwards);
    assert(scan_laws::keys_met(tree, nodes, range, forwards) == keys);
    assert forall|i: int| 0 <= i < nodes.len() implies tree.node_keys_in(
        #[trigger] nodes[i],
        range,
    ).len() > 0 by {
        lemma_nodes_in(tree, range, forwards, i);
    }
    assert forall|i: int, key: Seq<u8>|
        0 <= i < nodes.len() && #[trigger] tree.node_keys_in(nodes[i], range).contains(
            key,
        ) implies chosen(key) == node_choice(tree, choice, nodes[i]) by {
        lemma_nodes_in(tree, range, forwards, i);
        lemma_asked_about(tree, every, choice, range, nodes[i], key);
    }
    assert(goes_through(tree, keys, chosen, answer, step, states)) by {
        assert forall|i: int| 0 <= i < states.len() - 1 implies ({
            let held = tree.contents[keys[i]];
            passes(
                decided(chosen(keys[i]), answer(keys[i], held.index)),
                step(states[i], keys[i], held.index, held.value),
                #[trigger] states[i],
                states[i + 1],
            )
        }) by {
            let seen = states[i];
        }
    }
    let n = states.len() - 1;
    let state = states[n];
    let held = tree.contents[keys[n]];
    let end = if n == keys.len() {
        Visit::<A, E>::Passed(state)
    } else {
        match decided(chosen(keys[n]), answer(keys[n], held.index)) {
            ScanEvaluation::ReadData => match step(state, keys[n], held.index, held.value) {
                Err(error) => Visit::<A, E>::Aborted(error),
                Ok(next) => Visit::<A, E>::Passed(next),
            },
            _ => Visit::<A, E>::Stopped(state),
        }
    };
    if ends_with(tree, keys, chosen, answer, step, states, end) {
        lemma_nodes_walked(
            tree,
            nodes,
            range,
            forwards,
            node_evaluator,
            evaluator,
            callback,
            choice,
            chosen,
            answer,
            step,
            states,
            end,
            outcome,
        );
    }
}

/// A scan that is to read every node, and that is ended neither by the key evaluator nor by
/// the callback, hands over exactly those keys of the range that are to be read, each once,
/// with their indexes and values, in ascending order or in descending order.
pub proof fn law_wanted_keys_are_handed_over<
    A,
    E,
    N: Fn(&Vec<u8>, &ReducedIndex, usize) -> ScanEvaluation,
    K: Fn(&Vec<u8>, &KeyIndex) -> ScanEvaluation,
    D: Fn(A, &Vec<u8>, &KeyIndex, &Vec<u8>) -> Result<A, AbortError<E>>,
>(
    tree: TreeModel,
    range: KeyRange,
    forwards: bool,
    node_evaluator: N,
    evaluator: K,
    callback: D,
    answer: spec_fn(Seq<u8>, KeyIndex) -> ScanEvaluation,
    step: spec_fn(A, Seq<u8>, KeyIndex, Seq<u8>) -> A,
    start: A,
    outcome: Result<A, AbortError<E>>,
)
    requires
        tree.consistent(),
        scan_laws::reads_every_node(node_evaluator),
        answers(evaluator, answer),
        forall|key: Seq<u8>, index: KeyIndex| #[trigger] answer(key, index) !is Stop,
        scan_laws::goes_by(callback, step),
        scan::nodes_scanned(
            tree,
            scan::ordered(tree.nodes_in(range), forwards),
            range,
            forwards,
            node_evaluator,
            evaluator,
            callback,
            start,
            outcome,
        ),
    ensures
        outcome == Ok::<A, AbortError<E>>(
            (if forwards {
                tree.keys_in(range)
            } else {
                tree.keys_in(range).reverse()
            }).filter(|key: Seq<u8>| answer(key, tree.contents[key].index) is ReadData).fold_left(
                start,
                |state: A, key: Seq<u8>|
                    step(state, key, tree.contents[key].index, tree.contents[key].value),
            ),
        ),
{
    let keys = if forwards {
        tree.keys_in(range)
    } else {
        tree.keys_in(range).reverse()
    };
    let wanted = |key: Seq<u8>| answer(key, tree.contents[key].index) is ReadData;
    let onwards = |state: A, key: Seq<u8>|
        step(state, key, tree.contents[key].index, tree.contents[key].value);
    let choice = |key: Seq<u8>, reduced: ReducedIndex, depth: usize| ScanEvaluation::ReadData;
    let fallible = |state: A, key: Seq<u8>, index: KeyIndex, value: Seq<u8>|
        Ok::<A, AbortError<E>>(step(state, key, index, value));
    let states = Seq::new(
        (keys.len() + 1) as nat,
        |i: int| keys.take(i).filter(wanted).fold_left(start, onwards),
    );
    reveal(Seq::filter);
    assert(keys.take(0).filter(wanted) =~= Seq::empty());
    assert(states[0] == start);
    tree_laws::law_keys_listed(tree);
    tree_laws::law_range_listed(tree, range);
    assert forall|i: int| 0 <= i < states.len() - 1 implies ({
        let held = tree.contents[keys[i]];
        let node = asked_about(tree, tree.keys(), choice, keys[i]);
        let own = answer(keys[i], held.index);
        ||| (node is Skip || node is ReadData && own is Skip) && states[i + 1]
            == #[trigger] states[i]
        ||| node is ReadData && own is ReadData && fallible(
            states[i],
            keys[i],
            held.index,
            held.value,
        ) == Ok::<A, AbortError<E>>(states[i + 1])
    }) by {
        let part = keys.take(i).filter(wanted);
        assert(keys.take(i + 1).drop_last() =~= keys.take(i));
        assert(keys.take(i + 1).last() == keys[i]);
        if wanted(keys[i]) {
            let more = keys.take(i + 1).filter(wanted);
            assert(more =~= part.push(keys[i]));
            assert(more.drop_last() =~= part);
            assert(more.last() == keys[i]);
        } else {
            assert(answer(keys[i], tree.contents[keys[i]].index) is Skip);
        }
    }
    if !forwards {
        assert forall|key: Seq<u8>| #[trigger] keys.contains(key) <==> tree.contents.contains_key(
            key,
        ) && range.covers(key) by {
            let ascending = tree.keys_in(range);
            if keys.contains(key) {
                let i = keys.index_of(key);
                assert(ascending[ascending.len() - 1 - i] == key);
                assert(ascending.contains(key));
            }
            if ascending.contains(key) {
                let i = ascending.index_of(key);
                assert(keys[ascending.len() - 1 - i] == key);
            }
        }
    }
    law_scan_goes_key_by_key(
        tree,
        range,
        forwards,
        node_evaluator,
        evaluator,
        callback,
        choice,
        answer,
        fallible,
        tree.keys(),
        keys,
        states,
        outcome,
    );
    assert(keys.take(keys.len() as int) =~= keys);
}

/// A scan for which no node is to be read hands over nothing.
pub proof fn law_unread_nodes_hand_over_nothing<
    A,
    E,
    N: Fn(&Vec<u8>, &ReducedIndex, usize) -> ScanEvaluation,
    K: Fn(&Vec<u8>, &KeyIndex) -> ScanEvaluation,
    D: Fn(A, &Vec<u8>, &KeyIndex, &Vec<u8>) -> Result<A, AbortError<E>>,
>(
    tree: TreeModel,
    nodes: Seq<int>,
    range: KeyRange,
    forwards: bool,
    node_evaluator: N,
    evaluator: K,
    callback: D,
    start: A,
    outcome: Result<A, AbortError<E>>,
)
    requires
        forall|key: Vec<u8>, reduced: ReducedIndex, depth: usize, evaluation: ScanEvaluation|
            #[trigger] call_ensures(node_evaluator, (&key, &reduced, depth), evaluation)
                ==> evaluation !is ReadData,
        scan::nodes_scanned(
            tree,
            nodes,
            range,
            forwards,
            node_evaluator,
            evaluator,
            callback,
            start,
            outcome,
        ),
    ensures
        outcome == Ok::<A, AbortError<E>>(start),
    decreases nodes.len(),
{
    if nodes.len() > 0 {
        let keys = tree.node_keys(nodes[0]);
        let reduced = ReducedIndex::of(tree.key_indexes(keys));
        if outcome != Ok::<A, AbortError<E>>(start) {
            law_unread_nodes_hand_over_nothing(
                tree,
                nodes.drop_first(),
                range,
                forwards,
                node_evaluator,
                evaluator,
                callback,
                start,
                outcome,
            );
        }
    }
}

// ---- Changes ----

/// The evaluator of changes answers by `answer`.
pub open spec fn answers_changes<K: Fn(&KeySequence) -> ScanEvaluation>(
    evaluator: K,
    answer: spec_fn(Seq<u8>, int) -> ScanEvaluation,
) -> bool {
    forall|change: KeySequence, evaluation: ScanEvaluation|
        #[trigger] call_ensures(evaluator, (&change,), evaluation) ==> evaluation == answer(
            change.key@,
            change.sequence as int,
        )
}

/// The callback for changes goes from state to state by `step`, which may fail.
pub open spec fn steps_changes<
    A,
    E,
    D: Fn(A, &KeySequence, &Vec<u8>) -> Result<A, AbortError<E>>,
>(callback: D, step: spec_fn(A, Seq<u8>, int, Seq<u8>) -> Result<A, AbortError<E>>) -> bool {
    forall|state: A, change: KeySequence, value: Vec<u8>, outcome: Result<A, AbortError<E>>|
        #[trigger] call_ensures(callback, (state, &change, &value), outcome) ==> outcome == step(
            state,
            change.key@,
            change.sequence as int,
            value@,
        )
}

/// What a scan hands over of a change: the value that it stored, or no bytes where it
/// removed the key.
pub open spec fn stored_by(tree: TreeModel, id: int) -> Seq<u8> {
    if tree.changes[id - 1].value is Some {
        tree.changes[id - 1].value->0
    } else {
        Seq::empty()
    }
}

proof fn lemma_changes_walked<
    A,
    E,
    K: Fn(&KeySequence) -> ScanEvaluation,
    D: Fn(A, &KeySequence, &Vec<u8>) -> Result<A, AbortError<E>>,
>(
    tree: TreeModel,
    ids: Seq<int>,
    evaluator: K,
    callback: D,
    answer: spec_fn(Seq<u8>, int) -> ScanEvaluation,
    step: spec_fn(A, Seq<u8>, int, Seq<u8>) -> Result<A, AbortError<E>>,
    states: Seq<A>,
    outcome: Result<A, AbortError<E>>,
)
    requires
        answers_changes(evaluator, answer),
        steps_changes(callback, step),
        0 < states.len() <= ids.len() + 1,
        forall|i: int|
            0 <= i < states.len() - 1 ==> {
                let key = tree.changes[ids[i] - 1].key;
                let own = answer(key, ids[i]);
                ||| own is Skip && states[i + 1] == #[trigger] states[i]
                ||| own is ReadData && step(states[i], key, ids[i], stored_by(tree, ids[i]))
                    == Ok::<A, AbortError<E>>(states[i + 1])
            },
        sequences::changes_scanned(tree, ids, evaluator, callback, states[0], outcome),
    ensures
        ({
            let n = states.len() - 1;
            let state = states[n];
            let key = tree.changes[ids[n] - 1].key;
            let own = answer(key, ids[n]);
            &&& n == ids.len() ==> outcome == Ok::<A, AbortError<E>>(state)
            &&& n < ids.len() && own is Stop ==> outcome == Ok::<A, AbortError<E>>(state)
            &&& n < ids.len() && own is ReadData ==> (step(
                state,
                key,
                ids[n],
                stored_by(tree, ids[n]),
            ) matches Err(error) ==> outcome == Err::<A, AbortError<E>>(error))
        }),
    decreases ids.len(),
{
    if ids.len() > 0 {
        let change = tree.changes[ids[0] - 1];
        if states.len() > 1 {
            let rest = ids.drop_first();
            let later = states.drop_first();
            let seen = states[0];
            assert forall|i: int| 0 <= i < later.len() - 1 implies ({
                let key = tree.changes[rest[i] - 1].key;
                let own = answer(key, rest[i]);
                ||| own is Skip && later[i + 1] == #[trigger] later[i]
                ||| own is ReadData && step(later[i], key, rest[i], stored_by(tree, rest[i]))
                    == Ok::<A, AbortError<E>>(later[i + 1])
            }) by {
                assert(later[i] == states[i + 1]);
                assert(rest[i] == ids[i + 1]);
            }
            let n = later.len() - 1;
            if n < rest.len() {
                assert(rest[n] == ids[n + 1]);
            }
            lemma_changes_walked(
                tree,
                rest,
                evaluator,
                callback,
                answer,
                step,
                later,
                outcome,
            );
        }
    }
}

/// A scan of changes comes to the changes of the range in the order in which they were
/// made, or in the opposite order, each once, and to no others. A change that is to be
/// skipped is passed over. One that is to be read is handed to the callback, with its key,
/// its number and the value that it stored, and the state that the callback returns is
/// handed on. The scan ends where a change is to stop it, where the callback fails, or
/// behind the last change, and the state at that point is the outcome, or the error of the
/// callback.
pub proof fn law_scan_goes_change_by_change<
    A,
    E,
    K: Fn(&KeySequence) -> ScanEvaluation,
    D: Fn(A, &KeySequence, &Vec<u8>) -> Result<A, AbortError<E>>,
>(
    tree: TreeModel,
    range: SequenceRange,
    forwards: bool,
    evaluator: K,
    callback: D,
    answer: spec_fn(Seq<u8>, int) -> ScanEvaluation,
    step: spec_fn(A, Seq<u8>, int, Seq<u8>) -> Result<A, AbortError<E>>,
    ids: Seq<int>,
    states: Seq<A>,
    outcome: Result<A, AbortError<E>>,
)
    requires
        answers_changes(evaluator, answer),
        steps_changes(callback, step),
        forall|i: int, j: int|
            0 <= i < j < ids.len() ==> if forwards {
                #[trigger] ids[i] < #[trigger] ids[j]
            } else {
                ids[i] > ids[j]
            },
        forall|id: int| #[trigger]
            ids.contains(id) <==> 1 <= id <= tree.changes.len() && range.covers(id),
        0 < states.len() <= ids.len() + 1,
        forall|i: int|
            0 <= i < states.len() - 1 ==> {
                let key = tree.changes[ids[i] - 1].key;
                let own = answer(key, ids[i]);
                ||| own is Skip && states[i + 1] == #[trigger] states[i]
                ||| own is ReadData && step(states[i], key, ids[i], stored_by(tree, ids[i]))
                    == Ok::<A, AbortError<E>>(states[i + 1])
            },
        sequences::changes_scanned(
            tree,
            scan::ordered(tree.changes_in(range), forwards),
            evaluator,
            callback,
            states[0],
            outcome,
        ),
    ensures
        ({
            let n = states.len() - 1;
            let state = states[n];
            let key = tree.changes[ids[n] - 1].key;
            let own = answer(key, ids[n]);
            &&& n == ids.len() ==> outcome == Ok::<A, AbortError<E>>(state)
            &&& n < ids.len() && own is Stop ==> outcome == Ok::<A, AbortError<E>>(state)
            &&& n < ids.len() && own is ReadData ==> (step(
                state,
                key,
                ids[n],
                stored_by(tree, ids[n]),
            ) matches Err(error) ==> outcome == Err::<A, AbortError<E>>(error))
        }),
{
    let found = tree.changes_in(range);
    scan_laws::law_changes_in_order(tree, range);
    let ascending = if forwards {
        ids
    } else {
        ids.reverse()
    };
    assert forall|id: int| ascending.contains(id) <==> #[trigger] found.contains(id) by {
        assert(found.contains(id) <==> tree.has_change(id) && range.covers(id));
        assert(ids.contains(id) <==> 1 <= id <= tree.changes.len() && range.covers(id));
        if !forwards {
            if ids.contains(id) {
                let i = ids.index_of(id);
                assert(ascending[ids.len() - 1 - i] == id);
            }
            if ascending.contains(id) {
                let i = ascending.index_of(id);
                assert(ids[ids.len() - 1 - i] == id);
            }
        }
    }
    assert forall|i: int, j: int| 0 <= i < j < ascending.len() implies #[trigger] ascending[i]
        < #[trigger] ascending[j] by {
        if !forwards {
            assert(ids[ids.len() - 1 - j] > ids[ids.len() - 1 - i]);
        } else {
            assert(ids[i] < ids[j]);
        }
    }
    lemma_increasing_unique(ascending, found);
    if !forwards {
        assert(found.reverse() =~= ids);
    }
    lemma_changes_walked(tree, ids, evaluator, callback, answer, step, states, outcome);
}

/// Numbers that increase are told by which they are.
proof fn lemma_increasing_unique(a: Seq<int>, b: Seq<int>)
    requires
        forall|i: int, j: int| 0 <= i < j < a.len() ==> #[trigger] a[i] < #[trigger] a[j],
        forall|i: int, j: int| 0 <= i < j < b.len() ==> #[trigger] b[i] < #[trigger] b[j],
        forall|id: int| a.contains(id) <==> #[trigger] b.contains(id),
    ensures
        a == b,
    decreases a.len(),
{
    if a.len() == 0 {
        if b.len() > 0 {
            assert(b.contains(b[0]));
            assert(a.contains(b[0]));
        }
        assert(a =~= b);
    } else {
        assert(a.contains(a[a.len() - 1]));
        assert(b.contains(a[a.len() - 1]));
        let i = b.index_of(a[a.len() - 1]);
        assert(b.contains(b[b.len() - 1]));
        assert(a.contains(b[b.len() - 1]));
        let j = a.index_of(b[b.len() - 1]);
        assert(a[j] == b[b.len() - 1] && b[i] == a[a.len() - 1]);
        assert(a.last() == b.last());
        let a1 = a.drop_last();
        let b1 = b.drop_last();
        assert forall|id: int| a1.contains(id) <==> #[trigger] b1.contains(id) by {
            if a1.contains(id) {
                let k = a1.index_of(id);
                assert(a[k] == id && a[k] < a[a.len() - 1]);
                assert(a.contains(id));
                assert(b.contains(id));
                let l = b.index_of(id);
                assert(b[l] == id);
                assert(b1[l] == id);
            }
            if b1.contains(id) {
                let k = b1.index_of(id);
                assert(b[k] == id && b[k] < b[b.len() - 1]);
                assert(b.contains(id));
                assert(a.contains(id));
                let l = a.index_of(id);
                assert(a[l] == id);
                assert(a1[l] == id);
            }
        }
        lemma_increasing_unique(a1, b1);
        assert(a =~= a1.push(a.last()));
        assert(b =~= b1.push(b.last()));
    }
}

/// A scan of changes that is ended neither by the evaluator nor by the callback hands over
/// exactly those changes of the range that are to be read, each once, with their keys,
/// their numbers and the values that they stored, in the order in which they were made or
/// in the opposite order.
pub proof fn law_wanted_changes_are_handed_over<
    A,
    E,
    K: Fn(&KeySequence) -> ScanEvaluation,
    D: Fn(A, &KeySequence, &Vec<u8>) -> Result<A, AbortError<E>>,
>(
    tree: TreeModel,
    range: SequenceRange,
    forwards: bool,
    evaluator: K,
    callback: D,
    answer: spec_fn(Seq<u8>, int) -> ScanEvaluation,
    step: spec_fn(A, Seq<u8>, int, Seq<u8>) -> A,
    start: A,
    outcome: Result<A, AbortError<E>>,
)
    requires
        answers_changes(evaluator, answer),
        forall|key: Seq<u8>, id: int| #[trigger] answer(key, id) !is Stop,
        scan_laws::goes_by_changes(callback, step),
        sequences::changes_scanned(
            tree,
            scan::ordered(tree.changes_in(range), forwards),
            evaluator,
            callback,
            start,
            outcome,
        ),
    ensures
        outcome == Ok::<A, AbortError<E>>(
            (if forwards {
                Seq::new(tree.changes.len(), |i: int| i + 1)
            } else {
                Seq::new(tree.changes.len(), |i: int| i + 1).reverse()
            }).filter(
                |id: int| range.covers(id) && answer(tree.changes[id - 1].key, id) is ReadData,
            ).fold_left(
                start,
                |state: A, id: int|
                    step(state, tree.changes[id - 1].key, id, stored_by(tree, id)),
            ),
        ),
{
    let all = Seq::new(tree.changes.len(), |i: int| i + 1);
    let numbers = if forwards {
        all
    } else {
        all.reverse()
    };
    let covered = |id: int| range.covers(id);
    let ids = if forwards {
        tree.changes_in(range)
    } else {
        tree.changes_in(range).reverse()
    };
    let read = |id: int| answer(tree.changes[id - 1].key, id) is ReadData;
    let both = |id: int| range.covers(id) && answer(tree.changes[id - 1].key, id) is ReadData;
    let onwards = |state: A, id: int|
        step(state, tree.changes[id - 1].key, id, stored_by(tree, id));
    let fallible = |state: A, key: Seq<u8>, id: int, value: Seq<u8>|
        Ok::<A, AbortError<E>>(step(state, key, id, value));
    let states = Seq::new(
        (ids.len() + 1) as nat,
        |i: int| ids.take(i).filter(read).fold_left(start, onwards),
    );
    reveal(Seq::filter);
    assert(ids.take(0).filter(read) =~= Seq::empty());
    assert(states[0] == start);
    assert forall|i: int| 0 <= i < states.len() - 1 implies ({
        let key = tree.changes[ids[i] - 1].key;
        let own = answer(key, ids[i]);
        ||| own is Skip && states[i + 1] == #[trigger] states[i]
        ||| own is ReadData && fallible(states[i], key, ids[i], stored_by(tree, ids[i])) == Ok::<
            A,
            AbortError<E>,
        >(states[i + 1])
    }) by {
        let part = ids.take(i).filter(read);
        assert(ids.take(i + 1).drop_last() =~= ids.take(i));
        assert(ids.take(i + 1).last() == ids[i]);
        if read(ids[i]) {
            let more = ids.take(i + 1).filter(read);
            assert(more =~= part.push(ids[i]));
            assert(more.drop_last() =~= part);
            assert(more.last() == ids[i]);
        } else {
            assert(answer(tree.changes[ids[i] - 1].key, ids[i]) is Skip);
        }
    }
    lemma_changes_walked(tree, ids, evaluator, callback, answer, fallible, states, outcome);
    assert(ids.take(ids.len() as int) =~= ids);
    lemma_filter_reversed(all, covered);
    lemma_filter_twice(numbers, covered, read, both);
    assert(ids == numbers.filter(covered));
}

/// Filtering twice is filtering by both.
proof fn lemma_filter_twice(
    items: Seq<int>,
    first: spec_fn(int) -> bool,
    second: spec_fn(int) -> bool,
    both: spec_fn(int) -> bool,
)
    requires
        forall|item: int| #[trigger] both(item) <==> first(item) && second(item),
    ensures
        items.filter(first).filter(second) == items.filter(both),
    decreases items.len(),
{
    reveal(Seq::filter);
    if items.len() > 0 {
        let init = items.drop_last();
        let last = items.last();
        lemma_filter_twice(init, first, second, both);
        assert(both(last) <==> first(last) && second(last));
        if first(last) {
            let part = init.filter(first);
            assert(items.filter(first) =~= part.push(last));
            assert(part.push(last).drop_last() =~= part);
            assert(part.push(last).last() == last);
        }
    }
}

/// Filtering from the end gives the filtered items from their end.
proof fn lemma_filter_reversed(items: Seq<int>, pred: spec_fn(int) -> bool)
    ensures
        items.reverse().filter(pred) == items.filter(pred).reverse(),
    decreases items.len(),
{
    reveal(Seq::filter);
    if items.len() == 0 {
        assert(items.reverse() =~= items);
        assert(items.filter(pred).reverse() =~= items.filter(pred));
    } else {
        let init = items.drop_last();
        let last = items.last();
        lemma_filter_reversed(init, pred);
        assert(items.reverse() =~= seq![last] + init.reverse());
        Seq::filter_distributes_over_add(seq![last], init.reverse(), pred);
        let one = seq![last];
        assert(one.drop_last() =~= Seq::empty());
        assert(one.drop_last().filter(pred) =~= Seq::empty());
        if pred(last) {
            assert(one.filter(pred) =~= seq![last]);
            assert(items.filter(pred) =~= init.filter(pred).push(last));
        } else {
            assert(one.filter(pred) =~= Seq::empty());
            assert(items.filter(pred) =~= init.filter(pred));
        }
        assert(items.reverse().filter(pred) =~= items.filter(pred).reverse());
    }
}

} // verus!
