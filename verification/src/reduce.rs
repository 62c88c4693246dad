//! Summing up the indexes of a tree.

use vstd::prelude::*;
use crate::model::KeyIndex;

verus! {

/// What several indexes amount to. A number that would not fit is the largest
/// that does.
#[derive(Clone, Copy, Debug, PartialEq, Eq, Structural)]
pub struct ReducedIndex {
    /// The number of keys.
    pub alive_keys: u64,
    /// The length of all values together.
    pub total_bytes: u64,
}

/// `n`, or the largest number that fits.
pub open spec fn capped(n: int) -> u64 {
    if n <= u64::MAX {
        n as u64
    } else {
        u64::MAX
    }
}

/// The length of all values together.
pub open spec fn total_length(indexes: Seq<KeyIndex>) -> nat
    decreases indexes.len(),
{
    if indexes.len() == 0 {
        0
    } else {
        total_length(indexes.drop_last()) + indexes.last().value_length as nat
    }
}

/// All the numbers of keys together.
pub open spec fn total_alive(values: Seq<ReducedIndex>) -> nat
    decreases values.len(),
{
    if values.len() == 0 {
        0
    } else {
        total_alive(values.drop_last()) + values.last().alive_keys as nat
    }
}

/// All the lengths together.
pub open spec fn total_reduced(values: Seq<ReducedIndex>) -> nat
    decreases values.len(),
{
    if values.len() == 0 {
        0
    } else {
        total_reduced(values.drop_last()) + values.last().total_bytes as nat
    }
}

/// The parts, one behind the other.
pub open spec fn joined(parts: Seq<Seq<KeyIndex>>) -> Seq<KeyIndex>
    decreases parts.len(),
{
    if parts.len() == 0 {
        Seq::empty()
    } else {
        joined(parts.drop_last()) + parts.last()
    }
}

impl ReducedIndex {
    /// What `indexes` amount to.
    pub open spec fn of(indexes: Seq<KeyIndex>) -> ReducedIndex {
        ReducedIndex {
            alive_keys: capped(indexes.len() as int),
            total_bytes: capped(total_length(indexes) as int),
        }
    }

    /// What the parts amount to of which `values` are given.
    pub open spec fn of_parts(values: Seq<ReducedIndex>) -> ReducedIndex {
        ReducedIndex {
            alive_keys: capped(total_alive(values) as int),
            total_bytes: capped(total_reduced(values) as int),
        }
    }

    /// What each of `parts` amounts to.
    pub open spec fn each(parts: Seq<Seq<KeyIndex>>) -> Seq<ReducedIndex> {
        Seq::new(parts.len(), |i: int| ReducedIndex::of(parts[i]))
    }
}

/// Reduces some indexes.
pub fn reduce(indexes: &[KeyIndex]) -> (reduced: ReducedIndex)
    ensures
        reduced == ReducedIndex::of(indexes@),
{
    let count: usize = indexes.len();
    let mut total_bytes: u64 = 0;
    let mut i: usize = 0;
    while i < indexes.len()
        invariant
            i <= indexes@.len(),
            total_bytes == capped(total_length(indexes@.take(i as int)) as int),
        decreases indexes@.len() - i,
    {
        assert(indexes@.take(i + 1).drop_last() =~= indexes@.take(i as int));
        total_bytes = total_bytes.saturating_add(indexes[i].value_length);
        i = i + 1;
    }
    assert(indexes@.take(i as int) =~= indexes@);
    ReducedIndex { alive_keys: count as u64, total_bytes }
}

/// Reduces what has been reduced in parts.
pub fn rereduce(values: &[ReducedIndex]) -> (reduced: ReducedIndex)
    ensures
        reduced == ReducedIndex::of_parts(values@),
{
    let mut alive_keys: u64 = 0;
    let mut total_bytes: u64 = 0;
    let mut i: usize = 0;
    while i < values.len()
        invariant
            i <= values@.len(),
            alive_keys == capped(total_alive(values@.take(i as int)) as int),
            total_bytes == capped(total_reduced(values@.take(i as int)) as int),
        decreases values@.len() - i,
    {
        assert(values@.take(i + 1).drop_last() =~= values@.take(i as int));
        alive_keys = alive_keys.saturating_add(values[i].alive_keys);
        total_bytes = total_bytes.saturating_add(values[i].total_bytes);
        i = i + 1;
    }
    assert(values@.take(i as int) =~= values@);
    ReducedIndex { alive_keys, total_bytes }
}

proof fn lemma_total_length_add(a: Seq<KeyIndex>, b: Seq<KeyIndex>)
    ensures
        total_length(a + b) == total_length(a) + total_length(b),
    decreases b.len(),
{
    if b.len() == 0 {
        assert(a + b =~= a);
    } else {
        assert((a + b).drop_last() =~= a + b.drop_last());
        lemma_total_length_add(a, b.drop_last());
    }
}

/// However the indexes are parted, reducing the parts and then what they amount
/// to gives what reducing all of them at once gives.
pub proof fn law_reduce_in_parts(parts: Seq<Seq<KeyIndex>>)
    ensures
        ReducedIndex::of_parts(ReducedIndex::each(parts)) == ReducedIndex::of(joined(parts)),
    decreases parts.len(),
{
    let each = ReducedIndex::each(parts);
    if parts.len() > 0 {
        law_reduce_in_parts(parts.drop_last());
        assert(each.drop_last() =~= ReducedIndex::each(parts.drop_last()));
        lemma_total_length_add(joined(parts.drop_last()), parts.last());
    }
}

} // verus!
