use vstd::prelude::*;

verus! {

/// The items of `pairs` that came with `key`, in their order.
pub open spec fn bucket<K, T>(pairs: Seq<(K, T)>, key: K) -> Seq<T>
    decreases pairs.len(),
{
    if pairs.len() == 0 {
        Seq::empty()
    } else if pairs.last().0 == key {
        bucket(pairs.drop_last(), key).push(pairs.last().1)
    } else {
        bucket(pairs.drop_last(), key)
    }
}

/// The bucket of a concatenation is the concatenation of the buckets.
pub proof fn lemma_bucket_concat<K, T>(a: Seq<(K, T)>, b: Seq<(K, T)>, key: K)
    ensures
        bucket(a + b, key) == bucket(a, key) + bucket(b, key),
    decreases b.len(),
{
    if b.len() > 0 {
        lemma_bucket_concat(a, b.drop_last(), key);
        assert((a + b).drop_last() =~= a + b.drop_last());
    }
}

/// A bucket has items exactly if its key occurs among the pairs.
pub proof fn lemma_bucket_occurs<K, T>(pairs: Seq<(K, T)>, key: K)
    ensures
        bucket(pairs, key).len() > 0 <==> exists|i: int|
            0 <= i < pairs.len() && (#[trigger] pairs[i]).0 == key,
    decreases pairs.len(),
{
    if pairs.len() > 0 {
        let front = pairs.drop_last();
        lemma_bucket_occurs(front, key);
        if pairs.last().0 != key {
            if bucket(front, key).len() > 0 {
                let i = choose|i: int| 0 <= i < front.len() && (#[trigger] front[i]).0 == key;
                assert(pairs[i].0 == key);
            } else if exists|i: int| 0 <= i < pairs.len() && (#[trigger] pairs[i]).0 == key {
                let i = choose|i: int| 0 <= i < pairs.len() && (#[trigger] pairs[i]).0 == key;
                assert(front[i].0 == key);
            }
        }
    }
}

/// An item is in a bucket exactly if it occurs among the pairs with the
/// bucket's key.
pub proof fn lemma_bucket_contains<K, T>(pairs: Seq<(K, T)>, key: K, item: T)
    ensures
        bucket(pairs, key).contains(item) <==> exists|i: int|
            0 <= i < pairs.len() && #[trigger] pairs[i] == (key, item),
    decreases pairs.len(),
{
    if pairs.len() > 0 {
        let front = pairs.drop_last();
        lemma_bucket_contains(front, key, item);
        if exists|i: int| 0 <= i < pairs.len() && #[trigger] pairs[i] == (key, item) {
            let i = choose|i: int| 0 <= i < pairs.len() && #[trigger] pairs[i] == (key, item);
            if i < front.len() {
                assert(front[i] == (key, item));
            }
            if pairs.last().0 == key {
                vstd::seq_lib::lemma_seq_contains_after_push(
                    bucket(front, key),
                    pairs.last().1,
                    item,
                );
            }
        }
    }
}

/// A bucket has two items or more exactly if its key occurs twice.
pub proof fn lemma_bucket_shared<K, T>(pairs: Seq<(K, T)>, key: K)
    ensures
        bucket(pairs, key).len() >= 2 <==> exists|i: int, j: int|
            0 <= i < j < pairs.len() && (#[trigger] pairs[i]).0 == key && (#[trigger] pairs[j]).0
                == key,
    decreases pairs.len(),
{
    if pairs.len() > 0 {
        let front = pairs.drop_last();
        lemma_bucket_shared(front, key);
        lemma_bucket_occurs(front, key);
        if exists|i: int, j: int|
            0 <= i < j < pairs.len() && (#[trigger] pairs[i]).0 == key && (#[trigger] pairs[j]).0
                == key {
            let (i, j) = choose|i: int, j: int|
                0 <= i < j < pairs.len() && (#[trigger] pairs[i]).0 == key && (
                #[trigger] pairs[j]).0 == key;
            assert(front[i].0 == key);
            if j < front.len() {
                assert(front[j].0 == key);
            }
        }
    }
}

/// Whether no item occurs in two of the pairs.
pub open spec fn distinct_items<K, T>(pairs: Seq<(K, T)>) -> bool {
    forall|i: int, j: int|
        0 <= i < j < pairs.len() ==> (#[trigger] pairs[i]).1 != (#[trigger] pairs[j]).1
}

/// Where no item occurs twice among the pairs, none occurs twice in a bucket.
pub proof fn lemma_bucket_distinct<K, T>(pairs: Seq<(K, T)>, key: K)
    requires
        distinct_items(pairs),
    ensures
        bucket(pairs, key).no_duplicates(),
    decreases pairs.len(),
{
    if pairs.len() > 0 {
        let front = pairs.drop_last();
        lemma_bucket_distinct(front, key);
        if pairs.last().0 == key {
            lemma_bucket_contains(front, key, pairs.last().1);
        }
    }
}

/// The pairs with each key replaced by what `rename` makes of it.
pub open spec fn rekeyed<A, B, T>(pairs: Seq<(A, T)>, rename: spec_fn(A) -> B) -> Seq<(B, T)> {
    pairs.map_values(|p: (A, T)| (rename(p.0), p.1))
}

/// Whether `rename` gives different keys of `pairs` different names.
pub open spec fn distinguishes<A, B, T>(pairs: Seq<(A, T)>, rename: spec_fn(A) -> B) -> bool {
    forall|i: int, j: int|
        0 <= i < pairs.len() && 0 <= j < pairs.len() && rename((#[trigger] pairs[i]).0) == rename(
            (#[trigger] pairs[j]).0,
        ) ==> pairs[i].0 == pairs[j].0
}

/// Renaming the keys, different ones differently, leaves the bucket of a key
/// that occurs as it is, under the key's new name.
pub proof fn lemma_bucket_rekeyed<A, B, T>(pairs: Seq<(A, T)>, rename: spec_fn(A) -> B, key: A)
    requires
        forall|i: int|
            0 <= i < pairs.len() && rename((#[trigger] pairs[i]).0) == rename(key) ==> pairs[i].0
                == key,
    ensures
        bucket(rekeyed(pairs, rename), rename(key)) == bucket(pairs, key),
    decreases pairs.len(),
{
    if pairs.len() > 0 {
        let front = pairs.drop_last();
        lemma_bucket_rekeyed(front, rename, key);
        assert(rekeyed(pairs, rename).drop_last() =~= rekeyed(front, rename));
    }
}

} // verus!
