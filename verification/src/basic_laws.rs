//! What the order of keys, ranges, names and sums mean.

use vstd::prelude::*;
use crate::bytes;
use crate::model::{Bound, KeyIndex, KeyRange, SequenceId, SequenceRange};
use crate::names;
use crate::reduce;
use crate::reduce::ReducedIndex;
use crate::roots;
use crate::roots::TreePath;

verus! {

// ---- The order of keys ----

/// Keys are ordered as words are: behind the bytes that two keys share, the one comes
/// first that ends there or has the smaller byte.
pub proof fn law_keys_are_ordered_by_bytes(a: Seq<u8>, b: Seq<u8>, n: int)
    requires
        0 <= n <= a.len(),
        n <= b.len(),
        forall|i: int| 0 <= i < n ==> #[trigger] a[i] == b[i],
    ensures
        n < a.len() && n < b.len() && a[n] < b[n] ==> bytes::key_lt(a, b) && !bytes::key_lt(b, a),
        n == a.len() && n < b.len() ==> bytes::key_lt(a, b) && !bytes::key_lt(b, a),
        n == a.len() && n == b.len() ==> !bytes::key_lt(a, b) && !bytes::key_lt(b, a),
    decreases n,
{
    if n > 0 {
        let a1 = a.drop_first();
        let b1 = b.drop_first();
        assert forall|i: int| 0 <= i < n - 1 implies #[trigger] a1[i] == b1[i] by {
            assert(a[i + 1] == b[i + 1]);
        }
        assert(a[0] == b[0]);
        law_keys_are_ordered_by_bytes(a1, b1, n - 1);
    }
}

/// Of two different keys exactly one comes before the other, and a key that comes before
/// a second comes before all that the second comes before.
pub proof fn law_keys_are_ordered(a: Seq<u8>, b: Seq<u8>, c: Seq<u8>)
    ensures
        !bytes::key_lt(a, a),
        a != b ==> bytes::key_lt(a, b) != bytes::key_lt(b, a),
        bytes::key_lt(a, b) && bytes::key_lt(b, c) ==> bytes::key_lt(a, c),
{
    bytes::lemma_key_lt_irreflexive(a);
    bytes::lemma_key_lt_total(a, b);
    if bytes::key_lt(a, b) && bytes::key_lt(b, a) {
        bytes::lemma_key_lt_transitive(a, b, a);
    }
    if bytes::key_lt(a, b) && bytes::key_lt(b, c) {
        bytes::lemma_key_lt_transitive(a, b, c);
    }
}

// ---- Ranges ----

/// A range of keys holds its ends where they are included, and not where they are
/// excluded. It holds every key between the ends, and none before the start or behind the
/// end.
pub proof fn law_key_range_holds(range: KeyRange, key: Seq<u8>)
    ensures
        range.covers(key) ==> {
            &&& range.start matches Bound::Included(start) ==> !bytes::key_lt(key, start@)
            &&& range.start matches Bound::Excluded(start) ==> bytes::key_lt(start@, key)
            &&& range.end matches Bound::Included(end) ==> !bytes::key_lt(end@, key)
            &&& range.end matches Bound::Excluded(end) ==> bytes::key_lt(key, end@)
        },
        ({
            &&& range.start matches Bound::Included(start) ==> start@ == key || bytes::key_lt(
                start@,
                key,
            )
            &&& range.start matches Bound::Excluded(start) ==> bytes::key_lt(start@, key)
            &&& range.end matches Bound::Included(end) ==> end@ == key || bytes::key_lt(key, end@)
            &&& range.end matches Bound::Excluded(end) ==> bytes::key_lt(key, end@)
        }) ==> range.covers(key),
{
    if let Bound::Included(start) = range.start {
        law_keys_are_ordered(start@, key, key);
    }
    if let Bound::Included(end) = range.end {
        law_keys_are_ordered(key, end@, end@);
    }
}

/// Where a range of keys holds two keys, it holds every key between them.
pub proof fn law_key_range_has_no_gaps(
    range: KeyRange,
    low: Seq<u8>,
    key: Seq<u8>,
    high: Seq<u8>,
)
    requires
        range.covers(low),
        range.covers(high),
        bytes::key_lt(low, key),
        bytes::key_lt(key, high),
    ensures
        range.covers(key),
{
    match range.start {
        Bound::Included(start) => law_keys_are_ordered(start@, low, key),
        Bound::Excluded(start) => law_keys_are_ordered(start@, low, key),
        Bound::Unbounded => {},
    }
    match range.end {
        Bound::Included(end) => law_keys_are_ordered(key, high, end@),
        Bound::Excluded(end) => law_keys_are_ordered(key, high, end@),
        Bound::Unbounded => {},
    }
}

/// A range of changes holds its ends where they are included, and not where they are
/// excluded. It holds every change between the ends, and none before the start or behind
/// the end.
pub proof fn law_sequence_range_holds(range: SequenceRange, id: int)
    ensures
        range.covers(id) ==> {
            &&& range.start matches Bound::Included(start) ==> id >= start
            &&& range.start matches Bound::Excluded(start) ==> id > start
            &&& range.end matches Bound::Included(end) ==> id <= end
            &&& range.end matches Bound::Excluded(end) ==> id < end
        },
        ({
            &&& range.start matches Bound::Included(start) ==> id >= start
            &&& range.start matches Bound::Excluded(start) ==> id > start
            &&& range.end matches Bound::Included(end) ==> id <= end
            &&& range.end matches Bound::Excluded(end) ==> id < end
        }) ==> range.covers(id),
{
}

/// A range of changes and the one that begins where it ends share no change, and together
/// they hold what the range from the start of the one to the end of the other holds.
pub proof fn law_sequence_ranges_join(
    first: SequenceRange,
    second: SequenceRange,
    both: SequenceRange,
    at: SequenceId,
    id: int,
)
    requires
        first.end == Bound::Excluded(at),
        second.start == Bound::Included(at),
        both.start == first.start,
        both.end == second.end,
        first.start matches Bound::Included(start) ==> start <= at,
        first.start matches Bound::Excluded(start) ==> start < at,
        second.end matches Bound::Included(end) ==> at <= end,
        second.end matches Bound::Excluded(end) ==> at < end,
    ensures
        !(first.covers(id) && second.covers(id)),
        both.covers(id) <==> first.covers(id) || second.covers(id),
{
}

// ---- Names ----

/// A character that a name may hold, by its code: a digit, a letter, `-`, `.` or `_`.
spec fn code_allowed(code: int) -> bool {
    ||| 0x30 <= code <= 0x39
    ||| 0x41 <= code <= 0x5a
    ||| 0x61 <= code <= 0x7a
    ||| code == 0x2d
    ||| code == 0x2e
    ||| code == 0x5f
}

/// A tree may have every name that is made of ASCII letters, ASCII digits, `-`, `.` and
/// `_`, but the one that the log has. It may have no other name.
pub proof fn law_names_by_their_characters(name: Seq<char>)
    ensures
        names::valid_name(name) <==> {
            &&& name != seq!['_', 't', 'r', 'a', 'n', 's', 'a', 'c', 't', 'i', 'o', 'n', 's']
            &&& forall|i: int|
                0 <= i < name.len() ==> {
                    ||| 0x30 <= (#[trigger] name[i]) as int <= 0x39
                    ||| 0x41 <= name[i] as int <= 0x5a
                    ||| 0x61 <= name[i] as int <= 0x7a
                    ||| name[i] as int == 0x2d
                    ||| name[i] as int == 0x2e
                    ||| name[i] as int == 0x5f
                }
        },
{
    reveal_strlit("_transactions");
    assert("_transactions"@ =~= seq![
        '_',
        't',
        'r',
        'a',
        'n',
        's',
        'a',
        'c',
        't',
        'i',
        'o',
        'n',
        's',
    ]);
    assert forall|i: int| 0 <= i < name.len() implies names::name_char(#[trigger] name[i])
        == code_allowed(name[i] as int) by {}
    if names::valid_name(name) {
        assert forall|i: int| 0 <= i < name.len() implies code_allowed(
            (#[trigger] name[i]) as int,
        ) by {
            assert(names::name_char(name[i]));
        }
    }
}

/// A name of a single character is valid if and only if the character is an ASCII letter,
/// an ASCII digit, `-`, `.` or `_`.
pub proof fn law_single_characters(c: char)
    ensures
        names::valid_name(seq![c]) <==> {
            ||| 0x30 <= c as int <= 0x39
            ||| 0x41 <= c as int <= 0x5a
            ||| 0x61 <= c as int <= 0x7a
            ||| c as int == 0x2d
            ||| c as int == 0x2e
            ||| c as int == 0x5f
        },
{
    law_names_by_their_characters(seq![c]);
    assert(seq![c][0] == c);
    assert(seq![c].len() == 1);
}

/// Two valid names can be joined to a valid one, unless that is the name that the log has.
pub proof fn law_valid_names_join(a: Seq<char>, b: Seq<char>)
    requires
        names::valid_name(a),
        names::valid_name(b),
        a + b != "_transactions"@,
    ensures
        names::valid_name(a + b),
{
}

/// The file of a tree has the name of the tree with `.nebari` behind it, and it is in the
/// directory of the database.
pub proof fn law_tree_files_are_named(name: Seq<char>, path: Seq<char>, tree_path: TreePath)
    ensures
        names::file_name_of(name) == name + seq!['.', 'n', 'e', 'b', 'a', 'r', 'i'],
        roots::is_tree_path(tree_path, path, name) <==> {
            &&& tree_path.directory@ == path
            &&& tree_path.file@ == name + seq!['.', 'n', 'e', 'b', 'a', 'r', 'i']
        },
{
    lemma_extension();
}

proof fn lemma_extension()
    ensures
        ".nebari"@ == seq!['.', 'n', 'e', 'b', 'a', 'r', 'i'],
{
    reveal_strlit(".nebari");
    assert(".nebari"@ =~= seq!['.', 'n', 'e', 'b', 'a', 'r', 'i']);
}

/// A file is the file of a tree if and only if its name is some name with `.nebari` behind
/// it, and then it is the file of the tree of that name.
pub proof fn law_tree_files_are_recognised(file: Seq<char>, name: Seq<char>)
    ensures
        file == name + seq!['.', 'n', 'e', 'b', 'a', 'r', 'i'] <==> names::is_tree_file(file)
            && names::tree_of_file(file) == name,
{
    lemma_extension();
    if file == name + ".nebari"@ {
        assert(file.skip(file.len() - 7) =~= ".nebari"@);
        assert(names::tree_of_file(file) =~= name);
    }
    if names::is_tree_file(file) && names::tree_of_file(file) == name {
        assert(file =~= file.take(file.len() - 7) + file.skip(file.len() - 7));
    }
}

/// Trees are listed in the order of their files, each file for itself. A file whose name
/// does not end in `.nebari` is passed over.
pub proof fn law_trees_listed_in_order(
    a: Seq<Seq<char>>,
    b: Seq<Seq<char>>,
    file: Seq<char>,
    name: Seq<char>,
)
    ensures
        names::trees_of_files(a + b) == names::trees_of_files(a) + names::trees_of_files(b),
        file == name + seq!['.', 'n', 'e', 'b', 'a', 'r', 'i'] ==> names::trees_of_files(seq![file])
            == seq![name],
        file.len() < 7 || file.skip(file.len() - 7) != seq!['.', 'n', 'e', 'b', 'a', 'r', 'i']
            ==> names::trees_of_files(seq![file]).len() == 0,
    decreases b.len(),
{
    if b.len() == 0 {
        assert(a + b =~= a);
        assert(names::trees_of_files(a) + names::trees_of_files(b) =~= names::trees_of_files(a));
    } else {
        law_trees_listed_in_order(a, b.drop_last(), file, name);
        assert((a + b).drop_last() =~= a + b.drop_last());
        assert((a + b).last() == b.last());
        assert(names::trees_of_files(a + b) =~= names::trees_of_files(a) + names::trees_of_files(
            b,
        ));
    }
    let one = seq![file];
    assert(one.drop_last() =~= Seq::empty());
    assert(one.last() == file);
    assert(names::trees_of_files(one.drop_last()) =~= Seq::empty());
    law_tree_files_are_recognised(file, name);
    lemma_extension();
    if file == name + ".nebari"@ {
        assert(names::trees_of_files(one) =~= seq![name]);
    }
}

// ---- Sums ----

/// What some indexes amount to: their number, and the sum of the lengths that they name,
/// each as far as it fits.
pub proof fn law_reduced_is_sum(indexes: Seq<KeyIndex>)
    ensures
        ({
            let reduced = ReducedIndex::of(indexes);
            let total = indexes.fold_left(
                0int,
                |sum: int, index: KeyIndex| sum + index.value_length,
            );
            &&& reduced.alive_keys == if indexes.len() <= u64::MAX {
                indexes.len()
            } else {
                u64::MAX as nat
            }
            &&& reduced.total_bytes == if total <= u64::MAX {
                total
            } else {
                u64::MAX as int
            }
        }),
{
    lemma_total_is_sum(indexes);
}

proof fn lemma_total_is_sum(indexes: Seq<KeyIndex>)
    ensures
        reduce::total_length(indexes) == indexes.fold_left(
            0int,
            |sum: int, index: KeyIndex| sum + index.value_length,
        ),
    decreases indexes.len(),
{
    if indexes.len() > 0 {
        lemma_total_is_sum(indexes.drop_last());
    }
}

/// What several parts amount to: the sums of their numbers and of their lengths, each as
/// far as it fits. No parts amount to nothing.
pub proof fn law_rereduced_is_sum(values: Seq<ReducedIndex>)
    ensures
        ({
            let reduced = ReducedIndex::of_parts(values);
            let alive = values.fold_left(
                0int,
                |sum: int, part: ReducedIndex| sum + part.alive_keys,
            );
            let total = values.fold_left(
                0int,
                |sum: int, part: ReducedIndex| sum + part.total_bytes,
            );
            &&& reduced.alive_keys == if alive <= u64::MAX {
                alive
            } else {
                u64::MAX as int
            }
            &&& reduced.total_bytes == if total <= u64::MAX {
                total
            } else {
                u64::MAX as int
            }
            &&& values.len() == 0 ==> reduced.alive_keys == 0 && reduced.total_bytes == 0
        }),
{
    lemma_parts_are_sums(values);
}

proof fn lemma_parts_are_sums(values: Seq<ReducedIndex>)
    ensures
        reduce::total_alive(values) == values.fold_left(
            0int,
            |sum: int, part: ReducedIndex| sum + part.alive_keys,
        ),
        reduce::total_reduced(values) == values.fold_left(
            0int,
            |sum: int, part: ReducedIndex| sum + part.total_bytes,
        ),
    decreases values.len(),
{
    if values.len() > 0 {
        lemma_parts_are_sums(values.drop_last());
    }
}

} // verus!
