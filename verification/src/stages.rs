use crate::bucket::bucket;
use crate::bucket::lemma_bucket_concat;
use crate::partition::partitions;
use crate::partition::partitions_by;
use crate::selection::lemma_bucket_is_pick;
use crate::selection::lemma_pick_fewer;
use crate::selection::lemma_pick_from_bucket;
use crate::selection::lemma_pick_permuted;
use vstd::prelude::*;

verus! {

/// The pairs of one group, each key marked with the group's number.
pub open spec fn numbered<K, T>(group: Seq<(K, T)>, number: int) -> Seq<((int, K), T)> {
    group.map_values(|p: (K, T)| ((number, p.0), p.1))
}

/// The pairs of all groups in one list, each key marked with the number of
/// the group that the pair stands in.
pub open spec fn flat<K, T>(groups: Seq<Seq<(K, T)>>) -> Seq<((int, K), T)>
    decreases groups.len(),
{
    if groups.len() == 0 {
        Seq::empty()
    } else {
        flat(groups.drop_last()) + numbered(groups.last(), groups.len() - 1)
    }
}

/// Among the numbered pairs of one group, a bucket is that of the group for
/// the group's own number, and empty for any other.
pub proof fn lemma_bucket_numbered<K, T>(group: Seq<(K, T)>, number: int, at: int, key: K)
    ensures
        bucket(numbered(group, number), (at, key)) == if at == number {
            bucket(group, key)
        } else {
            Seq::empty()
        },
    decreases group.len(),
{
    if group.len() > 0 {
        lemma_bucket_numbered(group.drop_last(), number, at, key);
        assert(numbered(group, number).drop_last() =~= numbered(group.drop_last(), number));
    }
}

/// In the flat list, the bucket of a numbered key is the bucket of that key in
/// the group of that number.
pub proof fn lemma_bucket_flat<K, T>(groups: Seq<Seq<(K, T)>>, at: int, key: K)
    ensures
        bucket(flat(groups), (at, key)) == if 0 <= at < groups.len() {
            bucket(groups[at], key)
        } else {
            Seq::empty()
        },
    decreases groups.len(),
{
    if groups.len() > 0 {
        let front = groups.drop_last();
        let number = groups.len() - 1;
        lemma_bucket_flat(front, at, key);
        lemma_bucket_numbered(groups.last(), number, at, key);
        lemma_bucket_concat(flat(front), numbered(groups.last(), number), (at, key));
    }
}

/// What was found in one more group extends what was found in the groups
/// before it.
pub proof fn lemma_partitions_extend<K, T>(
    out: Seq<Seq<T>>,
    before: Seq<Seq<(K, T)>>,
    group: Seq<(K, T)>,
    found: Seq<Seq<T>>,
    least: nat,
)
    requires
        partitions(out, flat(before), least),
        partitions(found, group, least),
    ensures
        partitions(out + found, flat(before.push(group)), least),
{
    let old_keys = choose|keys: Seq<(int, K)>| partitions_by(out, keys, flat(before), least);
    let new_keys = choose|keys: Seq<K>| partitions_by(found, keys, group, least);
    let number = before.len() as int;
    let marked = new_keys.map_values(|k: K| (number, k));
    let keys = old_keys + marked;
    let groups = out + found;
    let all = before.push(group);
    assert forall|k: (int, K)| old_keys.contains(k) implies 0 <= k.0 < number by {
        lemma_bucket_flat(before, k.0, k.1);
    }
    assert forall|k: (int, K)|
        keys.contains(k) <==> bucket(flat(all), k).len() >= least && bucket(flat(all), k).len()
            > 0 by {
        lemma_bucket_flat(all, k.0, k.1);
        lemma_bucket_flat(before, k.0, k.1);
        if bucket(flat(all), k).len() >= least && bucket(flat(all), k).len() > 0 {
            if k.0 == number {
                let i = choose|i: int| 0 <= i < new_keys.len() && new_keys[i] == k.1;
                assert(keys[old_keys.len() + i] == k);
            } else {
                let i = choose|i: int| 0 <= i < old_keys.len() && old_keys[i] == k;
                assert(keys[i] == k);
            }
        }
    }
    assert forall|i: int| 0 <= i < groups.len() implies groups[i].to_multiset() == bucket(
        flat(all),
        keys[i],
    ).to_multiset() by {
        lemma_bucket_flat(all, keys[i].0, keys[i].1);
        lemma_bucket_flat(before, keys[i].0, keys[i].1);
    }
    assert(partitions_by(groups, keys, flat(all), least));
}

/// Whether `pairs` are the `items`, each with its key and with what `item`
/// makes of it.
pub open spec fn keyed_by<F, K, T>(
    pairs: Seq<(K, T)>,
    items: Seq<F>,
    key: spec_fn(F) -> K,
    item: spec_fn(F) -> T,
) -> bool {
    &&& pairs.len() == items.len()
    &&& forall|i: int| 0 <= i < items.len() ==> #[trigger] pairs[i] == (key(items[i]), item(items[i]))
}

/// Within the files that share a first key, the bucket of a second key is the
/// bucket of both keys among all files.
pub proof fn lemma_refined_bucket<F, A, B, T>(
    files: Seq<F>,
    first: spec_fn(F) -> A,
    second: spec_fn(F) -> B,
    item: spec_fn(F) -> T,
    sized: Seq<(A, F)>,
    signed: Seq<((A, B), T)>,
    group: Seq<F>,
    tagged: Seq<(B, T)>,
    a: A,
    b: B,
)
    requires
        keyed_by(sized, files, first, |f: F| f),
        keyed_by(signed, files, |f: F| (first(f), second(f)), item),
        group.to_multiset() == bucket(sized, a).to_multiset(),
        keyed_by(tagged, group, second, item),
    ensures
        bucket(tagged, b).to_multiset() == bucket(signed, (a, b)).to_multiset(),
{
    let has_b = |f: F| second(f) == b;
    let both = |f: F| first(f) == a && second(f) == b;
    lemma_bucket_is_pick(group, tagged, b, has_b, item);
    lemma_pick_permuted(group, bucket(sized, a), has_b, item);
    lemma_pick_from_bucket(files, sized, a, has_b, both, item);
    lemma_bucket_is_pick(files, signed, (a, b), both, item);
}

/// Files that agree in both keys agree in the first.
proof fn lemma_two_stages_first<F, A, B, T>(
    files: Seq<F>,
    first: spec_fn(F) -> A,
    second: spec_fn(F) -> B,
    item: spec_fn(F) -> T,
    sized: Seq<(A, F)>,
    signed: Seq<((A, B), T)>,
    k: (A, B),
)
    requires
        keyed_by(sized, files, first, |f: F| f),
        keyed_by(signed, files, |f: F| (first(f), second(f)), item),
    ensures
        bucket(signed, k).len() <= bucket(sized, k.0).len(),
{
    let has_a = |f: F| first(f) == k.0;
    let both = |f: F| first(f) == k.0 && second(f) == k.1;
    let same = |f: F| f;
    lemma_bucket_is_pick(files, signed, k, both, item);
    lemma_bucket_is_pick(files, sized, k.0, has_a, same);
    lemma_pick_fewer(files, both, has_a, item, same);
    vstd::seq_lib::to_multiset_len(bucket(signed, k));
    vstd::seq_lib::to_multiset_len(bucket(sized, k.0));
}

/// Two stages in a row: where the files are first partitioned by one key,
/// groups of one file dropped, then within each group by a second key, groups
/// of one file dropped again, what comes out are the groups of two or more
/// files that agree in both keys.
pub proof fn lemma_two_stages<F, A, B, T>(
    files: Seq<F>,
    first: spec_fn(F) -> A,
    second: spec_fn(F) -> B,
    item: spec_fn(F) -> T,
    sized: Seq<(A, F)>,
    candidates: Seq<Seq<F>>,
    tagged: Seq<Seq<(B, T)>>,
    out: Seq<Seq<T>>,
    signed: Seq<((A, B), T)>,
)
    requires
        keyed_by(sized, files, first, |f: F| f),
        partitions(candidates, sized, 2),
        tagged.len() == candidates.len(),
        forall|c: int|
            0 <= c < candidates.len() ==> keyed_by(#[trigger] tagged[c], candidates[c], second, item),
        partitions(out, flat(tagged), 2),
        keyed_by(signed, files, |f: F| (first(f), second(f)), item),
    ensures
        partitions(out, signed, 2),
{
    let firsts = choose|keys: Seq<A>| partitions_by(candidates, keys, sized, 2);
    let marks = choose|keys: Seq<(int, B)>| partitions_by(out, keys, flat(tagged), 2);
    let keys = marks.map_values(|m: (int, B)| (firsts[m.0], m.1));
    assert forall|i: int| 0 <= i < marks.len() implies 0 <= (#[trigger] marks[i]).0
        < candidates.len() by {
        lemma_bucket_flat(tagged, marks[i].0, marks[i].1);
    }
    assert forall|c: int, b: B| 0 <= c < candidates.len() implies (#[trigger] bucket(
        flat(tagged),
        (c, b),
    )).to_multiset() == bucket(signed, (firsts[c], b)).to_multiset() by {
        lemma_bucket_flat(tagged, c, b);
        lemma_refined_bucket(
            files,
            first,
            second,
            item,
            sized,
            signed,
            candidates[c],
            tagged[c],
            firsts[c],
            b,
        );
    }
    assert forall|k: (A, B)|
        keys.contains(k) <==> bucket(signed, k).len() >= 2 && bucket(signed, k).len() > 0 by {
        if keys.contains(k) {
            let i = choose|i: int| 0 <= i < keys.len() && keys[i] == k;
            vstd::seq_lib::to_multiset_len(bucket(flat(tagged), marks[i]));
            vstd::seq_lib::to_multiset_len(bucket(signed, k));
        }
        if bucket(signed, k).len() >= 2 {
            lemma_two_stages_first(files, first, second, item, sized, signed, k);
            let c = choose|c: int| 0 <= c < firsts.len() && firsts[c] == k.0;
            vstd::seq_lib::to_multiset_len(bucket(flat(tagged), (c, k.1)));
            vstd::seq_lib::to_multiset_len(bucket(signed, k));
            let i = choose|i: int| 0 <= i < marks.len() && marks[i] == (c, k.1);
            assert(keys[i] == k);
        }
    }
    assert(partitions_by(out, keys, signed, 2));
}

} // verus!
