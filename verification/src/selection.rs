use crate::bucket::bucket;
use vstd::multiset::Multiset;
use vstd::prelude::*;

verus! {

/// What `item` makes of those of `items` that are `wanted`, as a multiset.
pub open spec fn pick<F, T>(
    items: Seq<F>,
    wanted: spec_fn(F) -> bool,
    item: spec_fn(F) -> T,
) -> Multiset<T>
    decreases items.len(),
{
    if items.len() == 0 {
        Multiset::empty()
    } else if wanted(items.last()) {
        pick(items.drop_last(), wanted, item).insert(item(items.last()))
    } else {
        pick(items.drop_last(), wanted, item)
    }
}

/// Picking from two lists in a row is picking from each.
pub proof fn lemma_pick_concat<F, T>(
    a: Seq<F>,
    b: Seq<F>,
    wanted: spec_fn(F) -> bool,
    item: spec_fn(F) -> T,
)
    ensures
        pick(a + b, wanted, item) == pick(a, wanted, item).add(pick(b, wanted, item)),
    decreases b.len(),
{
    broadcast use vstd::multiset::group_multiset_axioms;

    if b.len() > 0 {
        lemma_pick_concat(a, b.drop_last(), wanted, item);
        assert((a + b).drop_last() =~= a + b.drop_last());
    }
}

/// What is picked does not depend on the order of the items.
pub proof fn lemma_pick_permuted<F, T>(
    a: Seq<F>,
    b: Seq<F>,
    wanted: spec_fn(F) -> bool,
    item: spec_fn(F) -> T,
)
    requires
        a.to_multiset() == b.to_multiset(),
    ensures
        pick(a, wanted, item) == pick(b, wanted, item),
    decreases a.len(),
{
    broadcast use vstd::multiset::group_multiset_axioms;

    vstd::seq_lib::to_multiset_len(a);
    vstd::seq_lib::to_multiset_len(b);
    if a.len() > 0 {
        let x = a.last();
        let rest = a.drop_last();
        assert(a =~= rest.push(x));
        vstd::seq_lib::to_multiset_build(rest, x);
        vstd::seq_lib::to_multiset_contains(b, x);
        let i = choose|i: int| 0 <= i < b.len() && b[i] == x;
        let others = b.remove(i);
        vstd::seq_lib::to_multiset_remove(b, i);
        assert(rest.to_multiset() =~= a.to_multiset().remove(x));
        lemma_pick_permuted(rest, others, wanted, item);
        let head = b.take(i);
        let tail = b.skip(i + 1);
        assert(b =~= head + seq![x] + tail);
        lemma_pick_concat(head, seq![x], wanted, item);
        lemma_pick_concat(head + seq![x], tail, wanted, item);
        lemma_pick_concat(head, tail, wanted, item);
        assert(seq![x].drop_last() =~= Seq::<F>::empty());
        assert(pick(Seq::<F>::empty(), wanted, item) =~= Multiset::<T>::empty());
    }
}

/// The bucket of a key holds what is picked from the items that have that key.
pub proof fn lemma_bucket_is_pick<F, K, T>(
    items: Seq<F>,
    pairs: Seq<(K, T)>,
    key: K,
    wanted: spec_fn(F) -> bool,
    item: spec_fn(F) -> T,
)
    requires
        pairs.len() == items.len(),
        forall|i: int| 0 <= i < items.len() ==> (#[trigger] pairs[i]).1 == item(items[i]),
        forall|i: int| 0 <= i < items.len() ==> ((#[trigger] pairs[i]).0 == key) == wanted(items[i]),
    ensures
        bucket(pairs, key).to_multiset() == pick(items, wanted, item),
    decreases items.len(),
{
    if items.len() == 0 {
        bucket(pairs, key).to_multiset_ensures();
    } else {
        let front = pairs.drop_last();
        lemma_bucket_is_pick(items.drop_last(), front, key, wanted, item);
        if pairs.last().0 == key {
            vstd::seq_lib::to_multiset_build(bucket(front, key), pairs.last().1);
        }
    }
}

/// Picking from a bucket of items is picking from all items those that have
/// the bucket's key and are wanted.
pub proof fn lemma_pick_from_bucket<F, K, T>(
    items: Seq<F>,
    pairs: Seq<(K, F)>,
    key: K,
    wanted: spec_fn(F) -> bool,
    both: spec_fn(F) -> bool,
    item: spec_fn(F) -> T,
)
    requires
        pairs.len() == items.len(),
        forall|i: int| 0 <= i < items.len() ==> (#[trigger] pairs[i]).1 == items[i],
        forall|i: int|
            0 <= i < items.len() ==> both(items[i]) == ((#[trigger] pairs[i]).0 == key && wanted(
                items[i],
            )),
    ensures
        pick(bucket(pairs, key), wanted, item) == pick(items, both, item),
    decreases items.len(),
{
    if items.len() > 0 {
        let front = pairs.drop_last();
        lemma_pick_from_bucket(items.drop_last(), front, key, wanted, both, item);
        if pairs.last().0 == key {
            assert(bucket(pairs, key).drop_last() =~= bucket(front, key));
        }
    }
}

/// Picking fewer of the items yields no more.
pub proof fn lemma_pick_fewer<F, T>(
    items: Seq<F>,
    narrow: spec_fn(F) -> bool,
    wide: spec_fn(F) -> bool,
    item: spec_fn(F) -> T,
    other: spec_fn(F) -> F,
)
    requires
        forall|i: int| 0 <= i < items.len() && narrow(#[trigger] items[i]) ==> wide(items[i]),
    ensures
        pick(items, narrow, item).len() <= pick(items, wide, other).len(),
    decreases items.len(),
{
    broadcast use vstd::multiset::group_multiset_axioms;

    if items.len() > 0 {
        lemma_pick_fewer(items.drop_last(), narrow, wide, item, other);
    }
}

/// A bucket holds the same items whatever the order of the pairs.
pub proof fn lemma_bucket_permuted<K, T>(a: Seq<(K, T)>, b: Seq<(K, T)>, key: K)
    requires
        a.to_multiset() == b.to_multiset(),
    ensures
        bucket(a, key).to_multiset() == bucket(b, key).to_multiset(),
        bucket(a, key).len() == bucket(b, key).len(),
{
    let wanted = |p: (K, T)| p.0 == key;
    let item = |p: (K, T)| p.1;
    lemma_bucket_is_pick(a, a, key, wanted, item);
    lemma_bucket_is_pick(b, b, key, wanted, item);
    lemma_pick_permuted(a, b, wanted, item);
    vstd::seq_lib::to_multiset_len(bucket(a, key));
    vstd::seq_lib::to_multiset_len(bucket(b, key));
}

} // verus!
