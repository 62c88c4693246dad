//! Walking over a tree under the direction of the caller.
//!
//! A tree is walked node by node. Each node holds the next [`NODE_ORDER`] keys of
//! the tree, the last one what is left.

use vstd::prelude::*;
use crate::error::AbortError;
use crate::model::{KeyIndex, KeyRange, ScanEvaluation, TreeModel};
use crate::reduce::{reduce, rereduce, ReducedIndex};
use crate::reduce;
use crate::state;
use crate::state::TreeState;

verus! {

/// The number of keys in a node.
pub const NODE_ORDER: usize = 128;

/// How far the walk over some keys has come.
pub enum Visit<A, E> {
    /// All of them were passed.
    Passed(A),
    /// The caller has ended the scan.
    Stopped(A),
    /// The caller's own code has failed.
    Aborted(AbortError<E>),
}

/// A sequence as it is, or from its end.
pub open spec fn ordered<T>(items: Seq<T>, forwards: bool) -> Seq<T> {
    if forwards {
        items
    } else {
        items.reverse()
    }
}

impl TreeModel {
    /// The number of nodes.
    pub open spec fn node_count(self) -> nat {
        ((self.keys().len() + NODE_ORDER - 1) / NODE_ORDER as int) as nat
    }

    /// The place behind the last key of a node.
    pub open spec fn node_end(self, node: int) -> int {
        if (node + 1) * NODE_ORDER <= self.keys().len() {
            (node + 1) * NODE_ORDER
        } else {
            self.keys().len() as int
        }
    }

    /// The keys of a node.
    pub open spec fn node_keys(self, node: int) -> Seq<Seq<u8>> {
        self.keys().subrange(node * NODE_ORDER, self.node_end(node))
    }

    /// The keys of a node that lie within `range`.
    pub open spec fn node_keys_in(self, node: int, range: KeyRange) -> Seq<Seq<u8>> {
        self.node_keys(node).filter(|key: Seq<u8>| range.covers(key))
    }

    /// The nodes that hold a key within `range`.
    pub open spec fn nodes_in(self, range: KeyRange) -> Seq<int> {
        Seq::new(self.node_count(), |node: int| node).filter(
            |node: int| self.node_keys_in(node, range).len() > 0,
        )
    }

    /// The indexes of some keys.
    pub open spec fn key_indexes(self, keys: Seq<Seq<u8>>) -> Seq<KeyIndex> {
        Seq::new(keys.len(), |i: int| self.contents[keys[i]].index)
    }
}

/// `evaluator` can be asked about any key.
pub open spec fn evaluates_keys<K: Fn(&Vec<u8>, &KeyIndex) -> ScanEvaluation>(
    evaluator: K,
) -> bool {
    forall|key: Vec<u8>, index: KeyIndex| #[trigger] call_requires(evaluator, (&key, &index))
}

/// `evaluator` can be asked about any node.
pub open spec fn evaluates_nodes<
    N: Fn(&Vec<u8>, &ReducedIndex, usize) -> ScanEvaluation,
>(evaluator: N) -> bool {
    forall|key: Vec<u8>, reduced: ReducedIndex, depth: usize| #[trigger]
        call_requires(evaluator, (&key, &reduced, depth))
}

/// `callback` takes any key and value.
pub open spec fn takes_data<
    A,
    E,
    D: Fn(A, &Vec<u8>, &KeyIndex, &Vec<u8>) -> Result<A, AbortError<E>>,
>(callback: D) -> bool {
    forall|state: A, key: Vec<u8>, index: KeyIndex, value: Vec<u8>| #[trigger]
        call_requires(callback, (state, &key, &index, &value))
}

/// `evaluation` is an answer of `evaluator` about `key`.
pub open spec fn key_answer<K: Fn(&Vec<u8>, &KeyIndex) -> ScanEvaluation>(
    evaluator: K,
    key: Seq<u8>,
    index: KeyIndex,
    evaluation: ScanEvaluation,
) -> bool {
    exists|owned: Vec<u8>|
        owned@ == key && #[trigger] call_ensures(evaluator, (&owned, &index), evaluation)
}

/// `evaluation` is an answer of `evaluator` about a node whose last key is `key`.
pub open spec fn node_answer<N: Fn(&Vec<u8>, &ReducedIndex, usize) -> ScanEvaluation>(
    evaluator: N,
    key: Seq<u8>,
    reduced: ReducedIndex,
    evaluation: ScanEvaluation,
) -> bool {
    exists|owned: Vec<u8>|
        owned@ == key && #[trigger] call_ensures(
            evaluator,
            (&owned, &reduced, 0usize),
            evaluation,
        )
}

/// `answer` is an answer of `callback` to `key` and `value`.
pub open spec fn data_answer<
    A,
    E,
    D: Fn(A, &Vec<u8>, &KeyIndex, &Vec<u8>) -> Result<A, AbortError<E>>,
>(
    callback: D,
    state: A,
    key: Seq<u8>,
    index: KeyIndex,
    value: Seq<u8>,
    answer: Result<A, AbortError<E>>,
) -> bool {
    exists|owned: Vec<u8>, owned_value: Vec<u8>|
        owned@ == key && owned_value@ == value && #[trigger] call_ensures(
            callback,
            (state, &owned, &index, &owned_value),
            answer,
        )
}

/// `visit` is what comes of walking over `keys` in turn. The evaluator is asked
/// about each. The callback gets those that are to be read, and hands its state
/// on from one to the next.
pub open spec fn keys_scanned<
    A,
    E,
    K: Fn(&Vec<u8>, &KeyIndex) -> ScanEvaluation,
    D: Fn(A, &Vec<u8>, &KeyIndex, &Vec<u8>) -> Result<A, AbortError<E>>,
>(
    tree: TreeModel,
    keys: Seq<Seq<u8>>,
    evaluator: K,
    callback: D,
    state: A,
    visit: Visit<A, E>,
) -> bool
    decreases keys.len(),
{
    if keys.len() == 0 {
        visit == Visit::<A, E>::Passed(state)
    } else {
        let key = keys[0];
        let held = tree.contents[key];
        let rest = keys.drop_first();
        exists|evaluation: ScanEvaluation|
            {
                &&& #[trigger] key_answer(evaluator, key, held.index, evaluation)
                &&& match evaluation {
                    ScanEvaluation::Stop => visit == Visit::<A, E>::Stopped(state),
                    ScanEvaluation::Skip => keys_scanned(
                        tree,
                        rest,
                        evaluator,
                        callback,
                        state,
                        visit,
                    ),
                    ScanEvaluation::ReadData => exists|answer: Result<A, AbortError<E>>|
                        {
                            &&& #[trigger] data_answer(
                                callback,
                                state,
                                key,
                                held.index,
                                held.value,
                                answer,
                            )
                            &&& match answer {
                                Ok(next) => keys_scanned(
                                    tree,
                                    rest,
                                    evaluator,
                                    callback,
                                    next,
                                    visit,
                                ),
                                Err(error) => visit == Visit::<A, E>::Aborted(error),
                            }
                        },
                }
            }
    }
}

/// `outcome` is what comes of walking over `nodes` in turn. The node evaluator is
/// asked about each, and the keys of those that are to be read are walked over.
pub open spec fn nodes_scanned<
    A,
    E,
    N: Fn(&Vec<u8>, &ReducedIndex, usize) -> ScanEvaluation,
    K: Fn(&Vec<u8>, &KeyIndex) -> ScanEvaluation,
    D: Fn(A, &Vec<u8>, &KeyIndex, &Vec<u8>) -> Result<A, AbortError<E>>,
>(
    tree: TreeModel,
    nodes: Seq<int>,
    range: KeyRange,
    forwards: bool,
    node_evaluator: N,
    evaluator: K,
    callback: D,
    state: A,
    outcome: Result<A, AbortError<E>>,
) -> bool
    decreases nodes.len(),
{
    if nodes.len() == 0 {
        outcome == Ok::<A, AbortError<E>>(state)
    } else {
        let keys = tree.node_keys(nodes[0]);
        let reduced = ReducedIndex::of(tree.key_indexes(keys));
        let wanted = ordered(tree.node_keys_in(nodes[0], range), forwards);
        let rest = nodes.drop_first();
        exists|evaluation: ScanEvaluation|
            {
                &&& #[trigger] node_answer(node_evaluator, keys.last(), reduced, evaluation)
                &&& match evaluation {
                    ScanEvaluation::Stop => outcome == Ok::<A, AbortError<E>>(state),
                    ScanEvaluation::Skip => nodes_scanned(
                        tree,
                        rest,
                        range,
                        forwards,
                        node_evaluator,
                        evaluator,
                        callback,
                        state,
                        outcome,
                    ),
                    ScanEvaluation::ReadData => exists|visit: Visit<A, E>|
                        {
                            &&& #[trigger] keys_scanned(
                                tree,
                                wanted,
                                evaluator,
                                callback,
                                state,
                                visit,
                            )
                            &&& match visit {
                                Visit::Passed(next) => nodes_scanned(
                                    tree,
                                    rest,
                                    range,
                                    forwards,
                                    node_evaluator,
                                    evaluator,
                                    callback,
                                    next,
                                    outcome,
                                ),
                                Visit::Stopped(next) => outcome == Ok::<A, AbortError<E>>(next),
                                Visit::Aborted(error) => outcome == Err::<A, AbortError<E>>(
                                    error,
                                ),
                            }
                        },
                }
            }
    }
}

/// Where a predicate holds in one stretch of a sequence and nowhere else, the
/// filtered sequence is that stretch.
proof fn lemma_filter_stretch<T>(items: Seq<T>, pred: spec_fn(T) -> bool, start: int, end: int)
    requires
        0 <= start <= end <= items.len(),
        forall|i: int| 0 <= i < items.len() ==> (pred(#[trigger] items[i]) <==> start <= i < end),
    ensures
        items.filter(pred) == items.subrange(start, end),
    decreases items.len(),
{
    reveal(Seq::filter);
    if items.len() > 0 {
        let init = items.drop_last();
        let last = items.len() - 1;
        if end == items.len() && start < end {
            lemma_filter_stretch(init, pred, start, last);
            assert(items.subrange(start, end) =~= init.subrange(start, last).push(items.last()));
        } else if end == items.len() {
            lemma_filter_stretch(init, pred, last, last);
            assert(items.subrange(start, end) =~= init.subrange(last, last));
        } else {
            lemma_filter_stretch(init, pred, start, end);
            assert(items.subrange(start, end) =~= init.subrange(start, end));
        }
    } else {
        assert(items.subrange(start, end) =~= items);
    }
}

impl TreeState {
    /// Walks over the keys at some places in turn.
    fn scan_places<
        A,
        E,
        K: Fn(&Vec<u8>, &KeyIndex) -> ScanEvaluation,
        D: Fn(A, &Vec<u8>, &KeyIndex, &Vec<u8>) -> Result<A, AbortError<E>>,
    >(&self, places: &Vec<usize>, evaluator: &K, callback: &D, start: A) -> (visit: Visit<A, E>)
        requires
            self.wf(),
            self.has_places(places@),
            evaluates_keys(*evaluator),
            takes_data(*callback),
        ensures
            keys_scanned(self@, self.keys_at(places@), *evaluator, *callback, start, visit),
    {
        let ghost keys = self.keys_at(places@);
        let mut state: A = start;
        let mut i: usize = 0;
        assert(keys.skip(0) =~= keys);
        while i < places.len()
            invariant
                self.wf(),
                self.has_places(places@),
                evaluates_keys(*evaluator),
                takes_data(*callback),
                i <= places@.len(),
                keys == self.keys_at(places@),
                forall|visit: Visit<A, E>|
                    #![trigger keys_scanned(self@, keys, *evaluator, *callback, start, visit)]
                    keys_scanned(self@, keys.skip(i as int), *evaluator, *callback, state, visit)
                        ==> keys_scanned(self@, keys, *evaluator, *callback, start, visit),
            decreases places@.len() - i,
        {
            let entry = &self.entries[places[i]];
            proof {
                state::lemma_contents_at(self.entries@, places@[i as int] as int);
                assert(keys.skip(i as int).drop_first() =~= keys.skip(i + 1));
                assert(keys.skip(i as int)[0] == entry.key@);
            }
            let evaluation = (*evaluator)(&entry.key, &entry.index);
            assert(key_answer(*evaluator, entry.key@, entry.index, evaluation));
            match evaluation {
                ScanEvaluation::Stop => {
                    let visit = Visit::Stopped(state);
                    assert(keys_scanned(self@, keys, *evaluator, *callback, start, visit));
                    return visit;
                },
                ScanEvaluation::Skip => {},
                ScanEvaluation::ReadData => {
                    let ghost before = state;
                    let answer = (*callback)(state, &entry.key, &entry.index, &entry.value);
                    assert(data_answer(
                        *callback,
                        before,
                        entry.key@,
                        entry.index,
                        entry.value@,
                        answer,
                    ));
                    match answer {
                        Ok(next) => {
                            state = next;
                        },
                        Err(error) => {
                            let visit = Visit::Aborted(error);
                            assert(keys_scanned(self@, keys, *evaluator, *callback, start, visit));
                            return visit;
                        },
                    }
                },
            }
            i = i + 1;
        }
        let visit = Visit::Passed(state);
        assert(keys.skip(i as int).len() == 0);
        assert(keys_scanned(self@, keys, *evaluator, *callback, start, visit));
        visit
    }

    /// The places of the ends of `range` are `low` and `high`.
    spec fn bounds(&self, range: KeyRange, low: int, high: int) -> bool {
        &&& 0 <= low <= self.entries@.len()
        &&& 0 <= high <= self.entries@.len()
        &&& forall|i: int|
            0 <= i < self.entries@.len() ==> (range.covers(#[trigger] self.entries@[i].key@)
                <==> low <= i < high)
    }

    /// The keys of a node within a range stand between two places.
    proof fn lemma_node_keys_in(&self, range: KeyRange, low: int, high: int, node: int)
        requires
            self.wf(),
            self.bounds(range, low, high),
            0 <= node < self@.node_count(),
        ensures
            self@.keys() == state::keys_of(self.entries@),
            0 <= node * NODE_ORDER < self@.node_end(node) <= self.entries@.len(),
            ({
                let first = node * NODE_ORDER;
                let end = self@.node_end(node);
                let from = if first < low { low } else { first };
                let to = if end < high { end } else { high };
                self@.node_keys_in(node, range) == if from < to {
                    state::keys_of(self.entries@).subrange(from, to)
                } else {
                    Seq::empty()
                }
            }),
    {
        state::lemma_keys_listed(self.entries@);
        let keys = state::keys_of(self.entries@);
        let first = node * NODE_ORDER;
        let end = self@.node_end(node);
        let from = if first < low { low } else { first };
        let to = if end < high { end } else { high };
        let own = self@.node_keys(node);
        let pred = |key: Seq<u8>| range.covers(key);
        assert forall|i: int| 0 <= i < own.len() implies (pred(#[trigger] own[i]) <==> low
            <= first + i < high) by {
            assert(own[i] == keys[first + i]);
            assert(self.entries@[first + i].key@ == own[i]);
        }
        if from < to {
            lemma_filter_stretch(own, pred, from - first, to - first);
            assert(own.subrange(from - first, to - first) =~= keys.subrange(from, to));
        } else {
            lemma_filter_stretch(own, pred, 0, 0);
            assert(own.subrange(0, 0) =~= Seq::empty());
        }
    }

    /// The nodes that hold a key between two places.
    fn nodes_between(&self, range: &KeyRange, low: usize, high: usize, forwards: bool) -> (nodes:
        Vec<usize>)
        requires
            self.wf(),
            self.bounds(*range, low as int, high as int),
        ensures
            nodes@.len() == self@.nodes_in(*range).len(),
            forall|i: int|
                0 <= i < nodes@.len() ==> {
                    &&& #[trigger] nodes@[i] as int == ordered(self@.nodes_in(*range), forwards)[i]
                    &&& nodes@[i] < self@.node_count()
                    &&& nodes@[i] * NODE_ORDER < high
                    &&& low < self@.node_end(nodes@[i] as int)
                },
    {
        let ghost all = Seq::new(self@.node_count(), |node: int| node);
        let ghost pred = |node: int| self@.node_keys_in(node, *range).len() > 0;
        let mut nodes: Vec<usize> = Vec::new();
        proof {
            state::lemma_keys_listed(self.entries@);
        }
        if low >= high {
            proof {
                assert forall|i: int| 0 <= i < all.len() implies !pred(#[trigger] all[i]) by {
                    self.lemma_node_keys_in(*range, low as int, high as int, i);
                }
                lemma_filter_stretch(all, pred, 0, 0);
            }
            return nodes;
        }
        let first: usize = low / NODE_ORDER;
        let last: usize = (high - 1) / NODE_ORDER;
        proof {
            assert forall|i: int| 0 <= i < all.len() implies (pred(#[trigger] all[i]) <==> first
                <= i < last + 1) by {
                self.lemma_node_keys_in(*range, low as int, high as int, i);
            }
            lemma_filter_stretch(all, pred, first as int, last + 1);
            assert(self@.nodes_in(*range) =~= all.subrange(first as int, last + 1));
        }
        let count: usize = last - first + 1;
        let mut i: usize = 0;
        while i < count
            invariant
                i <= count,
                first <= last,
                count == last - first + 1,
                nodes@.len() == i,
                forall|j: int|
                    0 <= j < i ==> #[trigger] nodes@[j] == if forwards {
                        first + j
                    } else {
                        last - j
                    },
            decreases count - i,
        {
            if forwards {
                nodes.push(first + i);
            } else {
                nodes.push(last - i);
            }
            i = i + 1;
        }
        nodes
    }

    /// What the keys between two places amount to.
    fn reduce_places(&self, start: usize, end: usize) -> (reduced: ReducedIndex)
        requires
            self.wf(),
            start <= end <= self.entries@.len(),
        ensures
            reduced == ReducedIndex::of(
                self@.key_indexes(state::keys_of(self.entries@).subrange(start as int, end as int)),
            ),
    {
        let ghost keys = state::keys_of(self.entries@).subrange(start as int, end as int);
        let mut indexes: Vec<KeyIndex> = Vec::new();
        let mut i: usize = start;
        while i < end
            invariant
                self.wf(),
                start <= i <= end <= self.entries@.len(),
                keys == state::keys_of(self.entries@).subrange(start as int, end as int),
                indexes@.len() == i - start,
                forall|j: int|
                    0 <= j < i - start ==> #[trigger] indexes@[j] == self@.contents[keys[j]].index,
            decreases end - i,
        {
            proof {
                state::lemma_contents_at(self.entries@, i as int);
                assert(keys[i - start] == self.entries@[i as int].key@);
            }
            indexes.push(self.entries[i].index);
            i = i + 1;
        }
        assert(indexes@ =~= self@.key_indexes(keys));
        reduce(indexes.as_slice())
    }

    /// Some places, from the first to the last or from the last to the first.
    fn places_between(&self, start: usize, end: usize, forwards: bool) -> (places: Vec<usize>)
        requires
            start <= end <= self.entries@.len(),
        ensures
            self.has_places(places@),
            self.keys_at(places@) == ordered(
                state::keys_of(self.entries@).subrange(start as int, end as int),
                forwards,
            ),
    {
        let count: usize = end - start;
        let mut places: Vec<usize> = Vec::new();
        let mut i: usize = 0;
        while i < count
            invariant
                i <= count,
                count == end - start,
                end <= self.entries@.len(),
                places@.len() == i,
                forall|j: int|
                    0 <= j < i ==> #[trigger] places@[j] == if forwards {
                        start + j
                    } else {
                        end - 1 - j
                    },
            decreases count - i,
        {
            if forwards {
                places.push(start + i);
            } else {
                places.push(end - 1 - i);
            }
            i = i + 1;
        }
        assert(self.keys_at(places@) =~= ordered(
            state::keys_of(self.entries@).subrange(start as int, end as int),
            forwards,
        ));
        places
    }

    /// The place behind the last key of a node.
    fn node_end_at(&self, start: usize) -> (end: usize)
        requires
            start < self.entries@.len(),
        ensures
            end == if start + NODE_ORDER <= self.entries@.len() {
                start + NODE_ORDER
            } else {
                self.entries@.len() as int
            },
    {
        let count: usize = self.entries.len();
        if count - start >= NODE_ORDER {
            start + NODE_ORDER
        } else {
            count
        }
    }

    /// Walks over the nodes that hold keys within `range`, and over those keys.
    pub fn scan<
        A,
        E,
        N: Fn(&Vec<u8>, &ReducedIndex, usize) -> ScanEvaluation,
        K: Fn(&Vec<u8>, &KeyIndex) -> ScanEvaluation,
        D: Fn(A, &Vec<u8>, &KeyIndex, &Vec<u8>) -> Result<A, AbortError<E>>,
    >(
        &self,
        range: &KeyRange,
        forwards: bool,
        node_evaluator: N,
        key_evaluator: K,
        callback: D,
        start: A,
    ) -> (outcome: Result<A, AbortError<E>>)
        requires
            self.wf(),
            evaluates_nodes(node_evaluator),
            evaluates_keys(key_evaluator),
            takes_data(callback),
        ensures
            nodes_scanned(
                self@,
                ordered(self@.nodes_in(*range), forwards),
                *range,
                forwards,
                node_evaluator,
                key_evaluator,
                callback,
                start,
                outcome,
            ),
    {
        let low: usize = self.start_of(range);
        let high: usize = self.end_of(range);
        assert(self.bounds(*range, low as int, high as int));
        let nodes = self.nodes_between(range, low, high, forwards);
        let ghost all = ordered(self@.nodes_in(*range), forwards);
        let mut state: A = start;
        let mut i: usize = 0;
        assert(all.skip(0) =~= all);
        while i < nodes.len()
            invariant
                self.wf(),
                evaluates_nodes(node_evaluator),
                evaluates_keys(key_evaluator),
                takes_data(callback),
                self.bounds(*range, low as int, high as int),
                all == ordered(self@.nodes_in(*range), forwards),
                nodes@.len() == all.len(),
                i <= nodes@.len(),
                forall|j: int|
                    0 <= j < nodes@.len() ==> {
                        &&& #[trigger] nodes@[j] as int == all[j]
                        &&& nodes@[j] < self@.node_count()
                        &&& nodes@[j] * NODE_ORDER < high
                        &&& low < self@.node_end(nodes@[j] as int)
                    },
                forall|outcome: Result<A, AbortError<E>>|
                    #![trigger nodes_scanned(
                        self@,
                        all,
                        *range,
                        forwards,
                        node_evaluator,
                        key_evaluator,
                        callback,
                        start,
                        outcome,
                    )]
                    nodes_scanned(
                        self@,
                        all.skip(i as int),
                        *range,
                        forwards,
                        node_evaluator,
                        key_evaluator,
                        callback,
                        state,
                        outcome,
                    ) ==> nodes_scanned(
                        self@,
                        all,
                        *range,
                        forwards,
                        node_evaluator,
                        key_evaluator,
                        callback,
                        start,
                        outcome,
                    ),
            decreases nodes@.len() - i,
        {
            let node: usize = nodes[i];
            proof {
                self.lemma_node_keys_in(*range, low as int, high as int, node as int);
                assert(all.skip(i as int).drop_first() =~= all.skip(i + 1));
                assert(all.skip(i as int)[0] == node as int);
            }
            let first: usize = node * NODE_ORDER;
            let end: usize = self.node_end_at(first);
            let reduced = self.reduce_places(first, end);
            let evaluation = node_evaluator(&self.entries[end - 1].key, &reduced, 0);
            proof {
                assert(end == self@.node_end(node as int));
                assert(self@.node_keys(node as int).last() == self.entries@[end - 1].key@);
                assert(node_answer(
                    node_evaluator,
                    self.entries@[end - 1].key@,
                    reduced,
                    evaluation,
                ));
            }
            match evaluation {
                ScanEvaluation::Stop => {
                    let outcome = Ok(state);
                    assert(nodes_scanned(
                        self@,
                        all,
                        *range,
                        forwards,
                        node_evaluator,
                        key_evaluator,
                        callback,
                        start,
                        outcome,
                    ));
                    return outcome;
                },
                ScanEvaluation::Skip => {},
                ScanEvaluation::ReadData => {
                    let from: usize = if first < low {
                        low
                    } else {
                        first
                    };
                    let to: usize = if end < high {
                        end
                    } else {
                        high
                    };
                    let places = self.places_between(from, to, forwards);
                    let ghost before = state;
                    let visit = self.scan_places(&places, &key_evaluator, &callback, state);
                    assert(keys_scanned(
                        self@,
                        ordered(self@.node_keys_in(node as int, *range), forwards),
                        key_evaluator,
                        callback,
                        before,
                        visit,
                    ));
                    match visit {
                        Visit::Passed(next) => {
                            state = next;
                        },
                        Visit::Stopped(next) => {
                            let outcome = Ok(next);
                            assert(nodes_scanned(
                                self@,
                                all,
                                *range,
                                forwards,
                                node_evaluator,
                                key_evaluator,
                                callback,
                                start,
                                outcome,
                            ));
                            return outcome;
                        },
                        Visit::Aborted(error) => {
                            let outcome = Err(error);
                            assert(nodes_scanned(
                                self@,
                                all,
                                *range,
                                forwards,
                                node_evaluator,
                                key_evaluator,
                                callback,
                                start,
                                outcome,
                            ));
                            return outcome;
                        },
                    }
                },
            }
            i = i + 1;
        }
        let outcome = Ok(state);
        assert(all.skip(i as int).len() == 0);
        assert(nodes_scanned(
            self@,
            all,
            *range,
            forwards,
            node_evaluator,
            key_evaluator,
            callback,
            start,
            outcome,
        ));
        outcome
    }

    /// What the keys within `range` amount to. Each node is reduced on its own, and
    /// then what the nodes amount to.
    pub fn reduce(&self, range: &KeyRange) -> (reduced: ReducedIndex)
        requires
            self.wf(),
        ensures
            reduced == ReducedIndex::of(self@.key_indexes(self@.keys_in(*range))),
    {
        let low: usize = self.start_of(range);
        let high: usize = self.end_of(range);
        let ghost keys = state::keys_of(self.entries@);
        let ghost mut parts: Seq<Seq<KeyIndex>> = Seq::empty();
        let mut values: Vec<ReducedIndex> = Vec::new();
        let mut at: usize = low;
        proof {
            let last = if low <= high {
                high as int
            } else {
                low as int
            };
            self.lemma_range(*range, low as int, last);
            let none = keys.subrange(low as int, low as int);
            assert(reduce::joined(parts) =~= self@.key_indexes(none));
            assert(values@ =~= ReducedIndex::each(parts));
        }
        while at < high
            invariant
                self.wf(),
                keys == state::keys_of(self.entries@),
                low <= at,
                at <= high || high <= low && at == low,
                low <= self.entries@.len(),
                high <= self.entries@.len(),
                values@ == ReducedIndex::each(parts),
                reduce::joined(parts) == self@.key_indexes(keys.subrange(low as int, at as int)),
            decreases high - at,
        {
            let first: usize = at / NODE_ORDER * NODE_ORDER;
            let end: usize = self.node_end_at(first);
            let next: usize = if end < high {
                end
            } else {
                high
            };
            let ghost before = parts;
            values.push(self.reduce_places(at, next));
            proof {
                let part = self@.key_indexes(keys.subrange(at as int, next as int));
                parts = parts.push(part);
                assert(parts.drop_last() =~= before);
                assert(ReducedIndex::each(parts) =~= ReducedIndex::each(before).push(
                    ReducedIndex::of(part),
                ));
                assert(reduce::joined(parts) =~= self@.key_indexes(
                    keys.subrange(low as int, next as int),
                ));
            }
            at = next;
        }
        proof {
            reduce::law_reduce_in_parts(parts);
        }
        rereduce(values.as_slice())
    }
}

} // verus!
