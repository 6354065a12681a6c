//! The order in which the leaves of a Huffman tree wait to be merged.
use vstd::prelude::*;
use vstd::relations::{sorted_by, total_ordering};
use vstd::seq_lib::{group_to_multiset_ensures, lemma_sorted_unique};

verus! {

/// A leaf's key: its weight, then the number of leaves that were given
/// after it.
pub type LeafKey = (i32, usize);

/// Lighter leaves come first; of two leaves of one weight, the one that was
/// given later comes first.
pub open spec fn key_leq(a: LeafKey, b: LeafKey) -> bool {
    a.0 < b.0 || (a.0 == b.0 && a.1 <= b.1)
}

/// The order of the keys as a relation.
pub open spec fn key_order() -> spec_fn(LeafKey, LeafKey) -> bool {
    |a: LeafKey, b: LeafKey| key_leq(a, b)
}

/// Of two keys one comes first, and only equal keys come before each other.
pub proof fn lemma_key_order_total()
    ensures
        total_ordering(key_order()),
{
    let r = key_order();
    assert forall|x: LeafKey, y: LeafKey| #[trigger] r(x, y) && #[trigger] r(y, x) implies x
        == y by {
        assert(key_leq(x, y) && key_leq(y, x));
    }
    assert forall|x: LeafKey, y: LeafKey, z: LeafKey| #[trigger]
        r(x, y) && #[trigger] r(y, z) implies r(x, z) by {
        assert(key_leq(x, y) && key_leq(y, z));
    }
}

/// The sum of the weights of the keys.
pub open spec fn key_sum(keys: Seq<LeafKey>) -> int
    decreases keys.len(),
{
    if keys.len() == 0 {
        0
    } else {
        key_sum(keys.drop_last()) + keys.last().0
    }
}

/// Taking a key out takes its weight out of the sum.
pub proof fn lemma_key_sum_remove(keys: Seq<LeafKey>, i: int)
    requires
        0 <= i < keys.len(),
    ensures
        key_sum(keys) == key_sum(keys.remove(i)) + keys[i].0,
    decreases keys.len(),
{
    if i == keys.len() - 1 {
        assert(keys.remove(i) =~= keys.drop_last());
    } else {
        lemma_key_sum_remove(keys.drop_last(), i);
        assert(keys.remove(i).drop_last() =~= keys.drop_last().remove(i));
    }
}

/// Keys that hold the same entries, in whatever order, weigh the same.
pub proof fn lemma_key_sum_permutation(a: Seq<LeafKey>, b: Seq<LeafKey>)
    requires
        a.to_multiset() == b.to_multiset(),
    ensures
        key_sum(a) == key_sum(b),
        a.len() == b.len(),
    decreases a.len(),
{
    broadcast use group_to_multiset_ensures;
    broadcast use vstd::multiset::group_multiset_axioms;

    assert(a.to_multiset().len() == a.len());
    assert(b.to_multiset().len() == b.len());
    if a.len() == 0 {
    } else {
        let x = a.last();
        assert(a.contains(x));
        assert(b.to_multiset().count(x) > 0);
        assert(b.contains(x));
        let i = b.index_of(x);
        assert(a.remove(a.len() - 1) =~= a.drop_last());
        assert(a.drop_last().to_multiset() =~= a.to_multiset().remove(x));
        assert(b.remove(i).to_multiset() =~= b.to_multiset().remove(x));
        lemma_key_sum_permutation(a.drop_last(), b.remove(i));
        lemma_key_sum_remove(b, i);
    }
}

/// What sorting does to keys of which no two are equal: the result is the
/// one sorted sequence that holds the same keys.
pub proof fn lemma_sorted_keys(keys: Seq<LeafKey>, sorted: Seq<LeafKey>)
    requires
        sorted.to_multiset() == keys.to_multiset(),
        sorted_by(sorted, key_order()),
    ensures
        sorted == keys.sort_by(key_order()),
{
    lemma_key_order_total();
    keys.lemma_sort_by_ensures(key_order());
    lemma_sorted_unique(sorted, keys.sort_by(key_order()), key_order());
}

/// What holds of the sorted keys: they are the given keys in another order.
pub proof fn lemma_sort_by_permutes(keys: Seq<LeafKey>)
    requires
        keys.no_duplicates(),
    ensures
        keys.sort_by(key_order()).len() == keys.len(),
        keys.sort_by(key_order()).no_duplicates(),
        key_sum(keys.sort_by(key_order())) == key_sum(keys),
        sorted_by(keys.sort_by(key_order()), key_order()),
        forall|k: int|
            0 <= k < keys.len() ==> keys.contains(#[trigger] keys.sort_by(key_order())[k]),
        forall|j: int|
            0 <= j < keys.len() ==> keys.sort_by(key_order()).contains(#[trigger] keys[j]),
{
    broadcast use group_to_multiset_ensures;
    broadcast use vstd::multiset::group_multiset_axioms;

    let sorted = keys.sort_by(key_order());
    lemma_key_order_total();
    keys.lemma_sort_by_ensures(key_order());
    lemma_key_sum_permutation(sorted, keys);
    keys.lemma_multiset_has_no_duplicates();
    sorted.lemma_multiset_has_no_duplicates_conv();
    assert forall|k: int| 0 <= k < keys.len() implies keys.contains(#[trigger] sorted[k]) by {
        assert(sorted.contains(sorted[k]));
        assert(sorted.to_multiset().count(sorted[k]) > 0);
    }
    assert forall|j: int| 0 <= j < keys.len() implies sorted.contains(#[trigger] keys[j]) by {
        assert(keys.contains(keys[j]));
        assert(keys.to_multiset().count(keys[j]) > 0);
    }
}

/// Calls `sort` of std's slices on the keys. Assumed of it: the keys are the
/// same afterwards, each as often as before, and stand in ascending order,
/// where tuples are ordered by their first parts and then by their second.
#[verifier::external_body]
pub(crate) fn sort_keys(keys: &mut Vec<LeafKey>)
    ensures
        final(keys)@.to_multiset() == old(keys)@.to_multiset(),
        sorted_by(final(keys)@, key_order()),
{
    keys.sort();
}

} // verus!
