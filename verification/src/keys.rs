//! Keys are byte strings ordered lexicographically, as `Vec<u8>` is ordered in Rust.

use vstd::prelude::*;

verus! {

/// Strict lexicographic order on byte strings: the first differing byte decides,
/// and a proper prefix comes before the longer string.
pub open spec fn key_lt(a: Seq<u8>, b: Seq<u8>) -> bool
    decreases a.len(),
{
    if b.len() == 0 {
        false
    } else if a.len() == 0 {
        true
    } else if a[0] != b[0] {
        a[0] < b[0]
    } else {
        key_lt(a.skip(1), b.skip(1))
    }
}

/// `key_lt` or equal.
pub open spec fn key_le(a: Seq<u8>, b: Seq<u8>) -> bool {
    key_lt(a, b) || a == b
}

/// A sequence of keys in strictly increasing order (so no key occurs twice).
pub open spec fn strictly_sorted(ks: Seq<Seq<u8>>) -> bool {
    forall|i: int, j: int| 0 <= i < j < ks.len() ==> key_lt(#[trigger] ks[i], #[trigger] ks[j])
}

/// No byte string is below itself.
pub proof fn lemma_key_lt_irreflexive(a: Seq<u8>)
    ensures
        !key_lt(a, a),
    decreases a.len(),
{
    if a.len() > 0 {
        lemma_key_lt_irreflexive(a.skip(1));
    }
}

/// The order is asymmetric.
pub proof fn lemma_key_lt_asymmetric(a: Seq<u8>, b: Seq<u8>)
    requires
        key_lt(a, b),
    ensures
        !key_lt(b, a),
    decreases a.len(),
{
    if a.len() > 0 && b.len() > 0 && a[0] == b[0] {
        lemma_key_lt_asymmetric(a.skip(1), b.skip(1));
    }
}

/// The order is transitive.
pub proof fn lemma_key_lt_transitive(a: Seq<u8>, b: Seq<u8>, c: Seq<u8>)
    requires
        key_lt(a, b),
        key_lt(b, c),
    ensures
        key_lt(a, c),
    decreases a.len(),
{
    if a.len() > 0 && b.len() > 0 && c.len() > 0 && a[0] == b[0] && b[0] == c[0] {
        lemma_key_lt_transitive(a.skip(1), b.skip(1), c.skip(1));
    }
}

/// Two distinct byte strings are ordered one way or the other.
pub proof fn lemma_key_lt_total(a: Seq<u8>, b: Seq<u8>)
    requires
        a != b,
    ensures
        key_lt(a, b) || key_lt(b, a),
    decreases a.len(),
{
    if a.len() > 0 && b.len() > 0 && a[0] == b[0] {
        if a.skip(1) == b.skip(1) {
            assert(a =~= seq![a[0]] + a.skip(1));
            assert(b =~= seq![b[0]] + b.skip(1));
        }
        lemma_key_lt_total(a.skip(1), b.skip(1));
    } else if a.len() == 0 && b.len() == 0 {
        assert(a =~= b);
    }
}

/// A strictly sorted sequence holds no key twice.
pub proof fn lemma_sorted_distinct(ks: Seq<Seq<u8>>, i: int, j: int)
    requires
        strictly_sorted(ks),
        0 <= i < ks.len(),
        0 <= j < ks.len(),
        i != j,
    ensures
        ks[i] != ks[j],
{
    if i < j {
        assert(key_lt(ks[i], ks[j]));
        lemma_key_lt_irreflexive(ks[i]);
    } else {
        assert(key_lt(ks[j], ks[i]));
        lemma_key_lt_irreflexive(ks[j]);
    }
}

proof fn lemma_key_lt_skip_step(a: Seq<u8>, b: Seq<u8>, i: int)
    requires
        0 <= i < a.len(),
        i < b.len(),
        a[i] == b[i],
    ensures
        key_lt(a.skip(i), b.skip(i)) == key_lt(a.skip(i + 1), b.skip(i + 1)),
{
    assert(a.skip(i).skip(1) =~= a.skip(i + 1));
    assert(b.skip(i).skip(1) =~= b.skip(i + 1));
}

/// The outcome of comparing two keys.
#[derive(PartialEq, Eq, Debug, Clone, Copy)]
pub enum KeyOrder {
    Less,
    Equal,
    Greater,
}

/// Compares two keys in the lexicographic byte order.
pub fn compare_keys(a: &[u8], b: &[u8]) -> (r: KeyOrder)
    ensures
        (r == KeyOrder::Less) <==> key_lt(a@, b@),
        (r == KeyOrder::Equal) <==> a@ == b@,
        (r == KeyOrder::Greater) <==> key_lt(b@, a@),
{
    let mut i: usize = 0;
    assert(a@.skip(0) =~= a@);
    assert(b@.skip(0) =~= b@);
    while i < a.len() && i < b.len()
        invariant
            i <= a.len(),
            i <= b.len(),
            a@.subrange(0, i as int) == b@.subrange(0, i as int),
            key_lt(a@, b@) == key_lt(a@.skip(i as int), b@.skip(i as int)),
            key_lt(b@, a@) == key_lt(b@.skip(i as int), a@.skip(i as int)),
        decreases a.len() - i,
    {
        if a[i] != b[i] {
            proof {
                if a@ == b@ {
                    assert(a@[i as int] == b@[i as int]);
                }
            }
            if a[i] < b[i] {
                return KeyOrder::Less;
            } else {
                return KeyOrder::Greater;
            }
        }
        proof {
            lemma_key_lt_skip_step(a@, b@, i as int);
            lemma_key_lt_skip_step(b@, a@, i as int);
            assert(a@.subrange(0, i + 1) =~= a@.subrange(0, i as int).push(a@[i as int]));
            assert(b@.subrange(0, i + 1) =~= b@.subrange(0, i as int).push(b@[i as int]));
        }
        i = i + 1;
    }
    proof {
        lemma_key_lt_irreflexive(a@);
        if i == a.len() && i == b.len() {
            assert(a@ =~= a@.subrange(0, i as int));
            assert(b@ =~= b@.subrange(0, i as int));
        } else {
            if a@ == b@ {
                assert(a@.len() == b@.len());
            }
        }
    }
    if i == a.len() && i == b.len() {
        KeyOrder::Equal
    } else if i == a.len() {
        KeyOrder::Less
    } else {
        KeyOrder::Greater
    }
}

} // verus!
