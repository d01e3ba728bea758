//! Ordered tables held as a vector of `(key, value)` pairs in strictly increasing
//! key order, with the map that such a vector stands for.

use vstd::prelude::*;

use crate::keys::{
    compare_keys, key_lt, lemma_key_lt_irreflexive, lemma_key_lt_transitive,
    lemma_sorted_distinct, strictly_sorted, KeyOrder,
};

verus! {

/// The keys of a vector of entries, as byte strings.
pub open spec fn key_seq<V>(s: Seq<(Vec<u8>, V)>) -> Seq<Seq<u8>> {
    Seq::new(s.len(), |i: int| s[i].0@)
}

/// `k` is the key of some pair of `s`.
pub open spec fn has_key<W>(s: Seq<(Seq<u8>, W)>, k: Seq<u8>) -> bool {
    exists|i: int| 0 <= i < s.len() && #[trigger] s[i].0 == k
}

/// No key occurs in two pairs of `s`.
pub open spec fn distinct_keys<W>(s: Seq<(Seq<u8>, W)>) -> bool {
    forall|i: int, j: int|
        0 <= i < s.len() && 0 <= j < s.len() && i != j ==> #[trigger] s[i].0 != #[trigger] s[j].0
}

/// The map that a sequence of pairs with distinct keys stands for.
pub open spec fn pairs_map<W>(s: Seq<(Seq<u8>, W)>) -> Map<Seq<u8>, W> {
    Map::new(
        |k: Seq<u8>| has_key(s, k),
        |k: Seq<u8>| s[choose|i: int| 0 <= i < s.len() && #[trigger] s[i].0 == k].1,
    )
}

/// The map holds each pair of a sequence with distinct keys.
pub proof fn lemma_pairs_map_at<W>(s: Seq<(Seq<u8>, W)>, i: int)
    requires
        distinct_keys(s),
        0 <= i < s.len(),
    ensures
        pairs_map(s).contains_key(s[i].0),
        pairs_map(s)[s[i].0] == s[i].1,
{
    let k = s[i].0;
    assert(has_key(s, k));
    let j = choose|j: int| 0 <= j < s.len() && #[trigger] s[j].0 == k;
    if j != i {
        assert(s[i].0 != s[j].0);
    }
}

/// A key that no pair carries is absent from the map.
pub proof fn lemma_pairs_map_absent<W>(s: Seq<(Seq<u8>, W)>, k: Seq<u8>)
    requires
        !has_key(s, k),
    ensures
        !pairs_map(s).contains_key(k),
{
}

/// Overwriting the value of one pair overwrites that key in the map.
pub proof fn lemma_pairs_map_update<W>(s: Seq<(Seq<u8>, W)>, i: int, w: W)
    requires
        distinct_keys(s),
        0 <= i < s.len(),
    ensures
        distinct_keys(s.update(i, (s[i].0, w))),
        pairs_map(s.update(i, (s[i].0, w))) == pairs_map(s).insert(s[i].0, w),
{
    let t = s.update(i, (s[i].0, w));
    let k = s[i].0;
    assert(distinct_keys(t)) by {
        assert forall|a: int, b: int|
            0 <= a < t.len() && 0 <= b < t.len() && a != b implies #[trigger] t[a].0
            != #[trigger] t[b].0 by {
            assert(t[a].0 == s[a].0);
            assert(t[b].0 == s[b].0);
        }
    }
    assert forall|x: Seq<u8>| has_key(t, x) <==> has_key(s, x) by {
        if has_key(t, x) {
            let a = choose|a: int| 0 <= a < t.len() && #[trigger] t[a].0 == x;
            assert(s[a].0 == x);
        }
        if has_key(s, x) {
            let a = choose|a: int| 0 <= a < s.len() && #[trigger] s[a].0 == x;
            assert(t[a].0 == x);
        }
    }
    assert forall|x: Seq<u8>| #[trigger] pairs_map(t).contains_key(x) implies pairs_map(t)[x]
        == pairs_map(s).insert(k, w)[x] by {
        let a = choose|a: int| 0 <= a < t.len() && #[trigger] t[a].0 == x;
        lemma_pairs_map_at(t, a);
        if a != i {
            lemma_pairs_map_at(s, a);
        }
    }
    assert(pairs_map(t) =~= pairs_map(s).insert(k, w));
}

/// Inserting a pair under a fresh key adds that key to the map.
pub proof fn lemma_pairs_map_insert<W>(s: Seq<(Seq<u8>, W)>, i: int, k: Seq<u8>, w: W)
    requires
        distinct_keys(s),
        !has_key(s, k),
        0 <= i <= s.len(),
    ensures
        distinct_keys(s.insert(i, (k, w))),
        pairs_map(s.insert(i, (k, w))) == pairs_map(s).insert(k, w),
{
    let t = s.insert(i, (k, w));
    assert forall|a: int| 0 <= a < t.len() implies #[trigger] t[a] == (if a < i {
        s[a]
    } else if a == i {
        (k, w)
    } else {
        s[a - 1]
    }) by {}
    assert(distinct_keys(t)) by {
        assert forall|a: int, b: int|
            0 <= a < t.len() && 0 <= b < t.len() && a != b implies #[trigger] t[a].0
            != #[trigger] t[b].0 by {
            if a != i && b != i {
                let sa = if a < i { a } else { a - 1 };
                let sb = if b < i { b } else { b - 1 };
                assert(t[a].0 == s[sa].0);
                assert(t[b].0 == s[sb].0);
            } else if a == i {
                let sb = if b < i { b } else { b - 1 };
                assert(t[b].0 == s[sb].0);
            } else {
                let sa = if a < i { a } else { a - 1 };
                assert(t[a].0 == s[sa].0);
            }
        }
    }
    assert forall|x: Seq<u8>| has_key(t, x) <==> (has_key(s, x) || x == k) by {
        if has_key(t, x) {
            let a = choose|a: int| 0 <= a < t.len() && #[trigger] t[a].0 == x;
            if a < i {
                assert(s[a].0 == x);
            } else if a > i {
                assert(s[a - 1].0 == x);
            }
        }
        if has_key(s, x) {
            let a = choose|a: int| 0 <= a < s.len() && #[trigger] s[a].0 == x;
            if a < i {
                assert(t[a].0 == x);
            } else {
                assert(t[a + 1].0 == x);
            }
        }
        if x == k {
            assert(t[i].0 == x);
        }
    }
    assert forall|x: Seq<u8>| #[trigger] pairs_map(t).contains_key(x) implies pairs_map(t)[x]
        == pairs_map(s).insert(k, w)[x] by {
        let a = choose|a: int| 0 <= a < t.len() && #[trigger] t[a].0 == x;
        lemma_pairs_map_at(t, a);
        if a < i {
            lemma_pairs_map_at(s, a);
        } else if a > i {
            lemma_pairs_map_at(s, a - 1);
        }
    }
    assert(pairs_map(t) =~= pairs_map(s).insert(k, w));
}

/// Every key before position `i` is below `k`, every key from `i` on is above it.
pub open spec fn splits_at(ks: Seq<Seq<u8>>, k: Seq<u8>, i: int) -> bool {
    &&& 0 <= i <= ks.len()
    &&& forall|j: int| 0 <= j < i ==> key_lt(#[trigger] ks[j], k)
    &&& forall|j: int| i <= j < ks.len() ==> key_lt(k, #[trigger] ks[j])
}

/// Binary search for `key` among the strictly sorted keys of `entries`:
/// `Ok(i)` where the key sits, else `Err(i)` where it would be inserted.
pub fn search<V>(entries: &Vec<(Vec<u8>, V)>, key: &[u8]) -> (r: Result<usize, usize>)
    requires
        strictly_sorted(key_seq(entries@)),
    ensures
        match r {
            Ok(i) => i < entries.len() && key_seq(entries@)[i as int] == key@,
            Err(i) => splits_at(key_seq(entries@), key@, i as int),
        },
{
    let ghost ks = key_seq(entries@);
    let mut lo: usize = 0;
    let mut hi: usize = entries.len();
    while lo < hi
        invariant
            ks == key_seq(entries@),
            strictly_sorted(ks),
            0 <= lo <= hi <= entries.len(),
            forall|j: int| 0 <= j < lo ==> key_lt(#[trigger] ks[j], key@),
            forall|j: int| hi <= j < ks.len() ==> key_lt(key@, #[trigger] ks[j]),
        decreases hi - lo,
    {
        let mid = lo + (hi - lo) / 2;
        match compare_keys(entries[mid].0.as_slice(), key) {
            KeyOrder::Equal => {
                return Ok(mid);
            },
            KeyOrder::Less => {
                proof {
                    assert forall|j: int| 0 <= j < mid + 1 implies key_lt(#[trigger] ks[j], key@) by {
                        if j < mid {
                            assert(key_lt(ks[j], ks[mid as int]));
                            lemma_key_lt_transitive(ks[j], ks[mid as int], key@);
                        }
                    }
                }
                lo = mid + 1;
            },
            KeyOrder::Greater => {
                proof {
                    assert forall|j: int| mid <= j < ks.len() implies key_lt(key@, #[trigger] ks[j]) by {
                        if j > mid {
                            assert(key_lt(ks[mid as int], ks[j]));
                            lemma_key_lt_transitive(key@, ks[mid as int], ks[j]);
                        }
                    }
                }
                hi = mid;
            },
        }
    }
    Err(lo)
}

/// A key that splits the sorted keys is not among them.
pub proof fn lemma_splits_absent(ks: Seq<Seq<u8>>, k: Seq<u8>, i: int)
    requires
        splits_at(ks, k, i),
    ensures
        !ks.contains(k),
{
    if ks.contains(k) {
        let j = choose|j: int| 0 <= j < ks.len() && ks[j] == k;
        lemma_key_lt_irreflexive(k);
        if j < i {
            assert(key_lt(ks[j], k));
        } else {
            assert(key_lt(k, ks[j]));
        }
    }
}

/// Inserting a key where it splits the sorted keys keeps them sorted.
pub proof fn lemma_sorted_insert(ks: Seq<Seq<u8>>, k: Seq<u8>, i: int)
    requires
        strictly_sorted(ks),
        splits_at(ks, k, i),
    ensures
        strictly_sorted(ks.insert(i, k)),
{
    let t = ks.insert(i, k);
    assert forall|a: int, b: int| 0 <= a < b < t.len() implies key_lt(#[trigger] t[a], #[trigger] t[b]) by {
        if b < i {
            assert(t[a] == ks[a] && t[b] == ks[b]);
        } else if b == i {
            assert(t[a] == ks[a]);
        } else if a < i {
            assert(t[a] == ks[a] && t[b] == ks[b - 1]);
            lemma_key_lt_transitive(ks[a], k, ks[b - 1]);
        } else if a == i {
            assert(t[b] == ks[b - 1]);
        } else {
            assert(t[a] == ks[a - 1] && t[b] == ks[b - 1]);
        }
    }
}

/// Puts `value` under `key`: overwrites the entry with that key, or inserts a new
/// entry in key order. Returns the position and the value that was replaced.
pub fn upsert<V>(entries: &mut Vec<(Vec<u8>, V)>, key: Vec<u8>, value: V) -> (r: (usize, Option<V>))
    requires
        strictly_sorted(key_seq(old(entries)@)),
    ensures
        strictly_sorted(key_seq(final(entries)@)),
        r.0 <= old(entries).len(),
        match r.1 {
            Some(prev) => {
                &&& r.0 < old(entries).len()
                &&& key_seq(old(entries)@)[r.0 as int] == key@
                &&& prev == old(entries)@[r.0 as int].1
                &&& final(entries)@ == old(entries)@.update(r.0 as int, (key, value))
            },
            None => {
                &&& splits_at(key_seq(old(entries)@), key@, r.0 as int)
                &&& final(entries)@ == old(entries)@.insert(r.0 as int, (key, value))
            },
        },
{
    let ghost ks = key_seq(entries@);
    match search(entries, key.as_slice()) {
        Ok(i) => {
            let mut slot = (key, value);
            std::mem::swap(&mut entries[i], &mut slot);
            proof {
                assert(key_seq(entries@) =~= ks);
            }
            (i, Some(slot.1))
        },
        Err(i) => {
            let ghost kv = key@;
            entries.insert(i, (key, value));
            proof {
                lemma_sorted_insert(ks, kv, i as int);
                assert(key_seq(entries@) =~= ks.insert(i as int, kv));
            }
            (i, None)
        },
    }
}

} // verus!

verus! {

/// The keys of a sequence of pairs.
pub open spec fn keys_of<W>(s: Seq<(Seq<u8>, W)>) -> Seq<Seq<u8>> {
    Seq::new(s.len(), |i: int| s[i].0)
}

/// Pairs held in strictly increasing key order.
pub open spec fn sorted_pairs<W>(s: Seq<(Seq<u8>, W)>) -> bool {
    strictly_sorted(keys_of(s))
}

/// Sorted pairs have distinct keys.
pub proof fn lemma_sorted_pairs_distinct<W>(s: Seq<(Seq<u8>, W)>)
    requires
        sorted_pairs(s),
    ensures
        distinct_keys(s),
{
    assert forall|i: int, j: int|
        0 <= i < s.len() && 0 <= j < s.len() && i != j implies #[trigger] s[i].0
        != #[trigger] s[j].0 by {
        lemma_sorted_distinct(keys_of(s), i, j);
    }
}

/// The domain of the map of distinct pairs has as many keys as there are pairs.
pub proof fn lemma_pairs_map_len<W>(s: Seq<(Seq<u8>, W)>)
    requires
        distinct_keys(s),
    ensures
        pairs_map(s).dom() == keys_of(s).to_set(),
        pairs_map(s).dom().finite(),
        pairs_map(s).len() == s.len(),
{
    let ks = keys_of(s);
    assert forall|x: Seq<u8>| has_key(s, x) <==> ks.to_set().contains(x) by {
        if has_key(s, x) {
            let a = choose|a: int| 0 <= a < s.len() && #[trigger] s[a].0 == x;
            assert(ks[a] == x);
        }
        if ks.to_set().contains(x) {
            let a = choose|a: int| 0 <= a < ks.len() && ks[a] == x;
            assert(s[a].0 == x);
        }
    }
    assert(pairs_map(s).dom() =~= ks.to_set());
    assert(ks.no_duplicates()) by {
        assert forall|i: int, j: int| 0 <= i < ks.len() && 0 <= j < ks.len() && i != j implies ks[i]
            != ks[j] by {
            assert(s[i].0 != s[j].0);
        }
    }
    ks.unique_seq_to_set();
    vstd::seq_lib::seq_to_set_is_finite(ks);
}

} // verus!
