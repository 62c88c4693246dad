//! The keys of a set, in the order in which a tree keeps them.

use vstd::prelude::*;
use crate::bytes;

verus! {

/// `keys` stands in strictly ascending key order.
pub open spec fn ascending(keys: Seq<Seq<u8>>) -> bool {
    forall|i: int, j: int|
        0 <= i < j < keys.len() ==> bytes::key_lt(#[trigger] keys[i], #[trigger] keys[j])
}

/// `keys` holds exactly the keys of `set`, in ascending order and each once.
pub open spec fn lists(keys: Seq<Seq<u8>>, set: Set<Seq<u8>>) -> bool {
    &&& ascending(keys)
    &&& forall|k: Seq<u8>| #[trigger] keys.contains(k) <==> set.contains(k)
}

/// The keys of a set in ascending order.
pub open spec fn listing(set: Set<Seq<u8>>) -> Seq<Seq<u8>> {
    choose|keys: Seq<Seq<u8>>| lists(keys, set)
}

/// A set has at most one listing.
pub proof fn lemma_listing_unique(a: Seq<Seq<u8>>, b: Seq<Seq<u8>>, set: Set<Seq<u8>>)
    requires
        lists(a, set),
        lists(b, set),
    ensures
        a == b,
    decreases a.len(),
{
    if a.len() == 0 {
        if b.len() > 0 {
            assert(b.contains(b[0]));
            assert(a.contains(b[0]));
        }
        assert(a =~= b);
    } else {
        assert(a.contains(a[0]));
        assert(b.contains(a[0]));
        let i = choose|i: int| 0 <= i < b.len() && b[i] == a[0];
        assert(b.contains(b[0]));
        assert(a.contains(b[0]));
        let j = choose|j: int| 0 <= j < a.len() && a[j] == b[0];
        if i > 0 {
            bytes::lemma_key_lt_irreflexive(a[0]);
            if j > 0 {
                bytes::lemma_key_lt_transitive(a[0], a[j], a[0]);
            }
        }
        assert(a[0] == b[0]);
        let rest = set.remove(a[0]);
        let a1 = a.drop_first();
        let b1 = b.drop_first();
        lemma_listing_tail(a, set);
        lemma_listing_tail(b, set);
        lemma_listing_unique(a1, b1, rest);
        assert(a =~= seq![a[0]] + a1);
        assert(b =~= seq![b[0]] + b1);
    }
}

proof fn lemma_listing_tail(keys: Seq<Seq<u8>>, set: Set<Seq<u8>>)
    requires
        lists(keys, set),
        keys.len() > 0,
    ensures
        lists(keys.drop_first(), set.remove(keys[0])),
{
    let tail = keys.drop_first();
    assert forall|i: int, j: int| 0 <= i < j < tail.len() implies bytes::key_lt(
        #[trigger] tail[i],
        #[trigger] tail[j],
    ) by {
        assert(tail[i] == keys[i + 1]);
        assert(tail[j] == keys[j + 1]);
    }
    assert forall|k: Seq<u8>| #[trigger] tail.contains(k) <==> set.remove(keys[0]).contains(k) by {
        if tail.contains(k) {
            let i = choose|i: int| 0 <= i < tail.len() && tail[i] == k;
            assert(keys[i + 1] == k);
            assert(keys.contains(k));
            bytes::lemma_key_lt_irreflexive(k);
        }
        if set.remove(keys[0]).contains(k) {
            assert(keys.contains(k));
            let i = choose|i: int| 0 <= i < keys.len() && keys[i] == k;
            assert(tail[i - 1] == k);
        }
    }
}

/// A sequence that lists a set is the listing of that set.
pub proof fn lemma_listing_is(keys: Seq<Seq<u8>>, set: Set<Seq<u8>>)
    requires
        lists(keys, set),
    ensures
        listing(set) == keys,
{
    lemma_listing_unique(keys, listing(set), set);
}

/// Every finite set has a listing.
pub proof fn lemma_listing_exists(set: Set<Seq<u8>>)
    requires
        set.finite(),
    ensures
        lists(listing(set), set),
    decreases set.len(),
{
    if set.len() == 0 {
        assert(set =~= Set::empty());
        assert(lists(Seq::empty(), set));
    } else {
        let key = set.choose();
        let rest = set.remove(key);
        lemma_listing_exists(rest);
        let keys = listing(rest);
        let at = place_of(keys, key, keys.len());
        lemma_place_of(keys, key, keys.len());
        let all = keys.insert(at as int, key);
        assert forall|i: int, j: int| 0 <= i < j < all.len() implies bytes::key_lt(
            #[trigger] all[i],
            #[trigger] all[j],
        ) by {
            if i < at {
                assert(all[i] == keys[i]);
            } else if i > at {
                assert(all[i] == keys[i - 1]);
            }
            if j < at {
                assert(all[j] == keys[j]);
            } else if j > at {
                assert(all[j] == keys[j - 1]);
                assert(keys.contains(keys[j - 1]));
                bytes::lemma_key_lt_total(key, keys[j - 1]);
            }
        }
        assert forall|k: Seq<u8>| #[trigger] all.contains(k) <==> set.contains(k) by {
            if all.contains(k) {
                let i = all.index_of(k);
                if i < at {
                    assert(keys[i] == k);
                    assert(keys.contains(k));
                } else if i > at {
                    assert(keys[i - 1] == k);
                    assert(keys.contains(k));
                }
            }
            if set.contains(k) {
                if k == key {
                    assert(all[at as int] == k);
                } else {
                    assert(keys.contains(k));
                    let i = keys.index_of(k);
                    if i < at {
                        assert(all[i] == k);
                    } else {
                        assert(all[i + 1] == k);
                    }
                }
            }
        }
        assert(lists(all, set));
    }
}

/// How many of the first `n` keys come before `key`, where they come first.
spec fn place_of(keys: Seq<Seq<u8>>, key: Seq<u8>, n: nat) -> nat
    decreases n,
{
    if n == 0 {
        0
    } else if bytes::key_lt(keys[n - 1], key) {
        n
    } else {
        place_of(keys, key, (n - 1) as nat)
    }
}

proof fn lemma_place_of(keys: Seq<Seq<u8>>, key: Seq<u8>, n: nat)
    requires
        ascending(keys),
        n <= keys.len(),
    ensures
        place_of(keys, key, n) <= n,
        forall|i: int| 0 <= i < place_of(keys, key, n) ==> bytes::key_lt(#[trigger] keys[i], key),
        forall|i: int| place_of(keys, key, n) <= i < n ==> !bytes::key_lt(#[trigger] keys[i], key),
    decreases n,
{
    if n > 0 {
        if bytes::key_lt(keys[n - 1], key) {
            assert forall|i: int| 0 <= i < n implies bytes::key_lt(#[trigger] keys[i], key) by {
                if i < n - 1 {
                    bytes::lemma_key_lt_transitive(keys[i], keys[n - 1], key);
                }
            }
        } else {
            lemma_place_of(keys, key, (n - 1) as nat);
        }
    }
}

/// A sequence that lists a set is as long as the set is large.
pub proof fn lemma_listing_len(keys: Seq<Seq<u8>>, set: Set<Seq<u8>>)
    requires
        lists(keys, set),
    ensures
        set.finite(),
        set.len() == keys.len(),
{
    assert forall|i: int, j: int| 0 <= i < keys.len() && 0 <= j < keys.len() && i
        != j implies keys[i] != keys[j] by {
        bytes::lemma_key_lt_irreflexive(keys[i]);
    }
    keys.unique_seq_to_set();
    assert(keys.to_set() =~= set);
    vstd::seq_lib::seq_to_set_is_finite(keys);
}

} // verus!
