use crate::bucket::bucket;
use crate::bucket::distinct_items;
use crate::bucket::lemma_bucket_contains;
use crate::bucket::lemma_bucket_distinct;
use crate::bucket::lemma_bucket_occurs;
use crate::bucket::lemma_bucket_shared;
use crate::multimap::union_of;
use crate::partition::folded;
use crate::partition::lemma_folded_buckets;
use crate::partition::keys_from;
use crate::partition::partitions;
use crate::partition::partitions_by;
use crate::partition::partitions_by_key;
use crate::pipeline::FileImage;
use crate::pipeline::signed;
use crate::selection::lemma_bucket_permuted;
use crate::stages::keyed_by;
use vstd::multiset::Multiset;
use vstd::prelude::*;

verus! {

/// The items listed under `key`, none where the key is absent.
pub open spec fn list_at<K, T>(m: Map<K, Seq<T>>, key: K) -> Seq<T> {
    if m.contains_key(key) {
        m[key]
    } else {
        Seq::empty()
    }
}

/// Whether two mappings list the same items under each key, in whatever order.
pub open spec fn same_lists<K, T>(a: Map<K, Seq<T>>, b: Map<K, Seq<T>>) -> bool {
    &&& a.dom() == b.dom()
    &&& forall|k: K|
        #![trigger list_at(a, k)]
        #![trigger list_at(b, k)]
        list_at(a, k).to_multiset() == list_at(b, k).to_multiset()
}

/// A union lists, under each key, every item of both mappings: as often as the
/// two list it together, so once where they share no item.
pub proof fn lemma_union_keeps_all<K, T>(a: Map<K, Seq<T>>, b: Map<K, Seq<T>>)
    ensures
        forall|k: K| union_of(a, b).contains_key(k) <==> a.contains_key(k) || b.contains_key(k),
        forall|k: K| #[trigger]
            list_at(union_of(a, b), k).to_multiset() == list_at(a, k).to_multiset().add(
                list_at(b, k).to_multiset(),
            ),
{
    broadcast use vstd::multiset::group_multiset_axioms;

    assert forall|k: K| #[trigger]
        list_at(union_of(a, b), k).to_multiset() == list_at(a, k).to_multiset().add(
            list_at(b, k).to_multiset(),
        ) by {
        let x = list_at(a, k);
        let y = list_at(b, k);
        vstd::seq_lib::lemma_multiset_commutative(x, y);
        vstd::seq_lib::lemma_multiset_commutative(y, x);
    }
}

/// A union does not depend on which mapping is merged into which, but for the
/// order within the lists.
pub proof fn lemma_union_commutes<K, T>(a: Map<K, Seq<T>>, b: Map<K, Seq<T>>)
    ensures
        same_lists(union_of(a, b), union_of(b, a)),
{
    broadcast use vstd::multiset::group_multiset_axioms;

    lemma_union_keeps_all(a, b);
    lemma_union_keeps_all(b, a);
    assert(union_of(a, b).dom() =~= union_of(b, a).dom());
    assert forall|k: K|
        list_at(union_of(a, b), k).to_multiset() == list_at(
            union_of(b, a),
            k,
        ).to_multiset() by {}
}

/// Unions of three mappings do not depend on which two are merged first, but
/// for the order within the lists.
pub proof fn lemma_union_associates<K, T>(a: Map<K, Seq<T>>, b: Map<K, Seq<T>>, c: Map<K, Seq<T>>)
    ensures
        same_lists(union_of(union_of(a, b), c), union_of(a, union_of(b, c))),
{
    broadcast use vstd::multiset::group_multiset_axioms;

    lemma_union_keeps_all(a, b);
    lemma_union_keeps_all(b, c);
    lemma_union_keeps_all(union_of(a, b), c);
    lemma_union_keeps_all(a, union_of(b, c));
    assert(union_of(union_of(a, b), c).dom() =~= union_of(a, union_of(b, c)).dom());
    assert forall|k: K|
        list_at(union_of(union_of(a, b), c), k).to_multiset() == list_at(
            union_of(a, union_of(b, c)),
            k,
        ).to_multiset() by {}
}

/// The fold does not depend on the order in which the items arrive, but for
/// the order within the lists.
pub proof fn lemma_fold_any_order<K, T>(a: Seq<(K, T)>, b: Seq<(K, T)>)
    requires
        a.to_multiset() == b.to_multiset(),
    ensures
        same_lists(folded(Map::empty(), a), folded(Map::empty(), b)),
{
    lemma_folded_buckets(a);
    lemma_folded_buckets(b);
    let x = folded(Map::<K, Seq<T>>::empty(), a);
    let y = folded(Map::<K, Seq<T>>::empty(), b);
    assert forall|k: K|
        x.contains_key(k) == y.contains_key(k) && list_at(x, k).to_multiset() == list_at(
            y,
            k,
        ).to_multiset() by {
        lemma_bucket_permuted(a, b, k);
    }
    assert(x.dom() =~= y.dom());
}

/// A key function that always gives the same key for the same item, the key
/// `key_of` it, partitions the items by that key.
pub proof fn lemma_pure_key<K, T, F: Fn(&T) -> K>(
    groups: Seq<Seq<T>>,
    items: Seq<T>,
    get_key: F,
    key_of: spec_fn(T) -> K,
    pairs: Seq<(K, T)>,
)
    requires
        partitions_by_key(groups, items, get_key),
        forall|t: T, k: K| call_ensures(get_key, (&t,), k) ==> k == key_of(t),
        keyed_by(pairs, items, key_of, |t: T| t),
    ensures
        partitions(groups, pairs, 1),
{
    let given = choose|given: Seq<(K, T)>|
        keys_from(given, items, get_key) && partitions(groups, given, 1);
    assert(given =~= pairs);
}

/// Whether `item` is in exactly one of the groups.
pub open spec fn in_one_group<T>(groups: Seq<Seq<T>>, item: T) -> bool {
    exists|g: int|
        0 <= g < groups.len() && #[trigger] groups[g].contains(item) && forall|h: int|
            0 <= h < groups.len() && #[trigger] groups[h].contains(item) ==> h == g
}

/// Whether `item` is in none of the groups.
pub open spec fn in_no_group<T>(groups: Seq<Seq<T>>, item: T) -> bool {
    forall|g: int| 0 <= g < groups.len() ==> !(#[trigger] groups[g]).contains(item)
}

/// A group holds the items that a bucket holds.
proof fn lemma_group_contains<K, T>(
    groups: Seq<Seq<T>>,
    keys: Seq<K>,
    pairs: Seq<(K, T)>,
    least: nat,
    g: int,
    item: T,
)
    requires
        partitions_by(groups, keys, pairs, least),
        0 <= g < groups.len(),
    ensures
        groups[g].contains(item) <==> exists|i: int|
            0 <= i < pairs.len() && #[trigger] pairs[i] == (keys[g], item),
        groups[g].len() == bucket(pairs, keys[g]).len(),
        groups[g].len() >= least,
{
    vstd::seq_lib::to_multiset_contains(groups[g], item);
    vstd::seq_lib::to_multiset_contains(bucket(pairs, keys[g]), item);
    vstd::seq_lib::to_multiset_len(groups[g]);
    vstd::seq_lib::to_multiset_len(bucket(pairs, keys[g]));
    lemma_bucket_contains(pairs, keys[g], item);
}

/// Of items that are all different, an item whose bucket has at least `least`
/// items is in exactly one group, and there once; any other item is in no
/// group.
pub proof fn lemma_membership<K, T>(groups: Seq<Seq<T>>, pairs: Seq<(K, T)>, least: nat, at: int)
    requires
        partitions(groups, pairs, least),
        distinct_items(pairs),
        0 <= at < pairs.len(),
    ensures
        bucket(pairs, pairs[at].0).len() >= least ==> in_one_group(groups, pairs[at].1),
        bucket(pairs, pairs[at].0).len() < least ==> in_no_group(groups, pairs[at].1),
        forall|g: int|
            0 <= g < groups.len() ==> (#[trigger] groups[g]).to_multiset().count(pairs[at].1) <= 1,
{
    let keys = choose|keys: Seq<K>| partitions_by(groups, keys, pairs, least);
    let key = pairs[at].0;
    let item = pairs[at].1;
    lemma_bucket_occurs(pairs, key);
    assert forall|h: int| 0 <= h < groups.len() && #[trigger] groups[h].contains(
        item,
    ) implies keys[h] == key by {
        lemma_group_contains(groups, keys, pairs, least, h, item);
    }
    assert forall|g: int| 0 <= g < groups.len() implies (#[trigger] groups[g]).to_multiset().count(
        item,
    ) <= 1 by {
        lemma_bucket_distinct(pairs, keys[g]);
        bucket(pairs, keys[g]).lemma_multiset_has_no_duplicates();
    }
    if bucket(pairs, key).len() >= least {
        assert(keys.contains(key));
        let g = choose|g: int| 0 <= g < keys.len() && keys[g] == key;
        lemma_group_contains(groups, keys, pairs, least, g, item);
        assert(groups[g].contains(item));
    } else {
        assert forall|g: int| 0 <= g < groups.len() implies !(#[trigger] groups[g]).contains(
            item,
        ) by {
            assert(keys.contains(keys[g]));
        }
    }
}

/// Two items, of items that are all different, are in the same group of a
/// partition exactly if they came with equal keys.
pub proof fn lemma_together_by_key<K, T>(groups: Seq<Seq<T>>, pairs: Seq<(K, T)>, i: int, j: int)
    requires
        partitions(groups, pairs, 1),
        distinct_items(pairs),
        0 <= i < pairs.len(),
        0 <= j < pairs.len(),
    ensures
        pairs[i].0 == pairs[j].0 <==> exists|g: int|
            0 <= g < groups.len() && #[trigger] groups[g].contains(pairs[i].1) && groups[g].contains(
                pairs[j].1,
            ),
{
    let keys = choose|keys: Seq<K>| partitions_by(groups, keys, pairs, 1);
    lemma_bucket_occurs(pairs, pairs[i].0);
    if pairs[i].0 == pairs[j].0 {
        assert(keys.contains(pairs[i].0));
        let g = choose|g: int| 0 <= g < keys.len() && keys[g] == pairs[i].0;
        lemma_group_contains(groups, keys, pairs, 1, g, pairs[i].1);
        lemma_group_contains(groups, keys, pairs, 1, g, pairs[j].1);
        assert(pairs[i] == (keys[g], pairs[i].1));
        assert(pairs[j] == (keys[g], pairs[j].1));
        assert(groups[g].contains(pairs[i].1) && groups[g].contains(pairs[j].1));
    }
    if exists|g: int|
        0 <= g < groups.len() && #[trigger] groups[g].contains(pairs[i].1) && groups[g].contains(
            pairs[j].1,
        ) {
        let g = choose|g: int|
            0 <= g < groups.len() && #[trigger] groups[g].contains(pairs[i].1)
                && groups[g].contains(pairs[j].1);
        lemma_group_contains(groups, keys, pairs, 1, g, pairs[i].1);
        lemma_group_contains(groups, keys, pairs, 1, g, pairs[j].1);
        let m = choose|m: int| 0 <= m < pairs.len() && #[trigger] pairs[m] == (keys[g], pairs[i].1);
        let n = choose|n: int| 0 <= n < pairs.len() && #[trigger] pairs[n] == (keys[g], pairs[j].1);
        assert(m == i) by {
            if m != i {
                assert(pairs[m].1 == pairs[i].1);
            }
        }
        assert(n == j) by {
            if n != j {
                assert(pairs[n].1 == pairs[j].1);
            }
        }
    }
}

/// Coverage: of files with distinct paths, a file that shares its key with
/// another file is in exactly one group, and there once; a file that shares
/// its key with no other is in no group.
pub proof fn lemma_coverage<K, T>(groups: Seq<Seq<T>>, pairs: Seq<(K, T)>, at: int)
    requires
        partitions(groups, pairs, 2),
        distinct_items(pairs),
        0 <= at < pairs.len(),
    ensures
        (exists|j: int| 0 <= j < pairs.len() && j != at && (#[trigger] pairs[j]).0 == pairs[at].0)
            ==> in_one_group(groups, pairs[at].1),
        !(exists|j: int| 0 <= j < pairs.len() && j != at && (#[trigger] pairs[j]).0 == pairs[at].0)
            ==> in_no_group(groups, pairs[at].1),
        forall|g: int|
            0 <= g < groups.len() ==> (#[trigger] groups[g]).to_multiset().count(pairs[at].1) <= 1,
{
    lemma_membership(groups, pairs, 2, at);
    lemma_bucket_shared(pairs, pairs[at].0);
}

/// Whether another pair than the one at `at` has the same first key, the size.
pub open spec fn shares_size<A, B, T>(pairs: Seq<((A, B), T)>, at: int) -> bool {
    exists|j: int| 0 <= j < pairs.len() && j != at && (#[trigger] pairs[j]).0.0 == pairs[at].0.0
}

/// Whether another pair than the one at `at` has the same second key, the
/// checksum.
pub open spec fn shares_checksum<A, B, T>(pairs: Seq<((A, B), T)>, at: int) -> bool {
    exists|j: int| 0 <= j < pairs.len() && j != at && (#[trigger] pairs[j]).0.1 == pairs[at].0.1
}

/// Coverage, by size and checksum: of files with distinct paths, where no two
/// contents of different size have the same checksum, a file whose size
/// another file has and whose checksum another file has is in exactly one
/// group; any other file is in none.
pub proof fn lemma_coverage_by_size_and_checksum<A, B, T>(
    groups: Seq<Seq<T>>,
    pairs: Seq<((A, B), T)>,
    at: int,
)
    requires
        partitions(groups, pairs, 2),
        distinct_items(pairs),
        0 <= at < pairs.len(),
        forall|i: int, j: int|
            0 <= i < pairs.len() && 0 <= j < pairs.len() && (#[trigger] pairs[i]).0.1 == (
            #[trigger] pairs[j]).0.1 ==> pairs[i].0.0 == pairs[j].0.0,
    ensures
        shares_size(pairs, at) && shares_checksum(pairs, at) ==> in_one_group(groups, pairs[at].1),
        !(shares_size(pairs, at) && shares_checksum(pairs, at)) ==> in_no_group(
            groups,
            pairs[at].1,
        ),
{
    lemma_coverage(groups, pairs, at);
}

/// Group purity: the members of a group are files that were given, have equal
/// keys, and are as many as asked for, two for duplicates; of files with
/// distinct paths, none is in two groups.
pub proof fn lemma_purity<K, T>(groups: Seq<Seq<T>>, pairs: Seq<(K, T)>, least: nat)
    requires
        partitions(groups, pairs, least),
        distinct_items(pairs),
    ensures
        forall|g: int|
            0 <= g < groups.len() ==> (#[trigger] groups[g]).len() >= least && groups[g].len() > 0,
        forall|g: int, m: int|
            0 <= g < groups.len() && 0 <= m < groups[g].len() ==> exists|i: int|
                0 <= i < pairs.len() && (#[trigger] pairs[i]).1 == #[trigger] groups[g][m],
        forall|g: int, i: int, j: int|
            0 <= g < groups.len() && 0 <= i < pairs.len() && 0 <= j < pairs.len()
                && #[trigger] groups[g].contains(pairs[i].1) && #[trigger] groups[g].contains(
                pairs[j].1,
            ) ==> pairs[i].0 == pairs[j].0,
        forall|g: int, h: int, item: T|
            0 <= g < groups.len() && 0 <= h < groups.len() && #[trigger] groups[g].contains(item)
                && #[trigger] groups[h].contains(item) ==> g == h,
{
    let keys = choose|keys: Seq<K>| partitions_by(groups, keys, pairs, least);
    assert forall|g: int| 0 <= g < groups.len() implies (#[trigger] groups[g]).len() >= least
        && groups[g].len() > 0 by {
        lemma_group_contains(groups, keys, pairs, least, g, arbitrary());
        assert(keys.contains(keys[g]));
    }
    assert forall|g: int, m: int| 0 <= g < groups.len() && 0 <= m < groups[g].len() implies exists|
        i: int,
    | 0 <= i < pairs.len() && (#[trigger] pairs[i]).1 == #[trigger] groups[g][m] by {
        let item = groups[g][m];
        lemma_group_contains(groups, keys, pairs, least, g, item);
        let i = choose|i: int| 0 <= i < pairs.len() && #[trigger] pairs[i] == (keys[g], item);
        assert(pairs[i].1 == item);
    }
    assert forall|g: int, i: int| 0 <= g < groups.len() && 0 <= i < pairs.len()
        && #[trigger] groups[g].contains((#[trigger] pairs[i]).1) implies pairs[i].0 == keys[g] by {
        lemma_group_contains(groups, keys, pairs, least, g, pairs[i].1);
    }
}

/// The groups as a set of multisets: neither the order of the groups nor the
/// order within a group counts.
pub open spec fn as_sets<T>(groups: Seq<Seq<T>>) -> Set<Multiset<T>> {
    groups.map_values(|g: Seq<T>| g.to_multiset()).to_set()
}

/// Each group of one partition of the pairs is a group of any other.
proof fn lemma_groups_found_again<K, T>(
    one: Seq<Seq<T>>,
    other: Seq<Seq<T>>,
    pairs: Seq<(K, T)>,
    least: nat,
)
    requires
        partitions(one, pairs, least),
        partitions(other, pairs, least),
    ensures
        as_sets(one).subset_of(as_sets(other)),
        one.len() <= other.len(),
{
    let keys = choose|keys: Seq<K>| partitions_by(one, keys, pairs, least);
    let others = choose|keys: Seq<K>| partitions_by(other, keys, pairs, least);
    let bags = one.map_values(|g: Seq<T>| g.to_multiset());
    let other_bags = other.map_values(|g: Seq<T>| g.to_multiset());
    assert forall|bag: Multiset<T>| as_sets(one).contains(bag) implies as_sets(other).contains(
        bag,
    ) by {
        let i = choose|i: int| 0 <= i < bags.len() && bags[i] == bag;
        let j = choose|j: int| 0 <= j < others.len() && others[j] == keys[i];
        assert(other_bags[j] == bag);
    }
    keys.unique_seq_to_set();
    others.unique_seq_to_set();
    vstd::set_lib::lemma_len_subset(keys.to_set(), others.to_set());
}

/// Idempotence: two runs over the same files yield the same groups, but for
/// the order of the groups and the order within them.
pub proof fn lemma_same_groups<K, T>(
    one: Seq<Seq<T>>,
    other: Seq<Seq<T>>,
    pairs: Seq<(K, T)>,
    least: nat,
)
    requires
        partitions(one, pairs, least),
        partitions(other, pairs, least),
    ensures
        as_sets(one) == as_sets(other),
        one.len() == other.len(),
{
    lemma_groups_found_again(one, other, pairs, least);
    lemma_groups_found_again(other, one, pairs, least);
}

/// Boundary: where nothing is given, there is no group.
pub proof fn lemma_nothing_given<K, T>(groups: Seq<Seq<T>>, pairs: Seq<(K, T)>, least: nat)
    requires
        partitions(groups, pairs, least),
        pairs.len() == 0,
    ensures
        groups.len() == 0,
{
    let keys = choose|keys: Seq<K>| partitions_by(groups, keys, pairs, least);
    if keys.len() > 0 {
        assert(keys.contains(keys[0]));
    }
}

/// Boundary: where no two files share a key, and so where there is no file at
/// all, there is no group.
pub proof fn lemma_nothing_shared<K, T>(groups: Seq<Seq<T>>, pairs: Seq<(K, T)>)
    requires
        partitions(groups, pairs, 2),
        forall|i: int, j: int|
            0 <= i < j < pairs.len() ==> (#[trigger] pairs[i]).0 != (#[trigger] pairs[j]).0,
    ensures
        groups.len() == 0,
{
    let keys = choose|keys: Seq<K>| partitions_by(groups, keys, pairs, 2);
    if keys.len() > 0 {
        lemma_bucket_shared(pairs, keys[0]);
    }
}

/// Where all pairs have the key of the first, its bucket holds every item.
proof fn lemma_single_bucket<K, T>(pairs: Seq<(K, T)>, key: K)
    requires
        forall|i: int| 0 <= i < pairs.len() ==> (#[trigger] pairs[i]).0 == key,
    ensures
        bucket(pairs, key) == pairs.map_values(|p: (K, T)| p.1),
    decreases pairs.len(),
{
    if pairs.len() > 0 {
        lemma_single_bucket(pairs.drop_last(), key);
    }
}

/// Boundary: where two or more files all have the same key, there is exactly
/// one group, and it holds all of them.
pub proof fn lemma_all_shared<K, T>(groups: Seq<Seq<T>>, pairs: Seq<(K, T)>)
    requires
        partitions(groups, pairs, 2),
        pairs.len() >= 2,
        forall|i: int| 0 <= i < pairs.len() ==> (#[trigger] pairs[i]).0 == pairs[0].0,
    ensures
        groups.len() == 1,
        groups[0].to_multiset() == pairs.map_values(|p: (K, T)| p.1).to_multiset(),
{
    let keys = choose|keys: Seq<K>| partitions_by(groups, keys, pairs, 2);
    let key = pairs[0].0;
    lemma_single_bucket(pairs, key);
    assert forall|i: int| 0 <= i < keys.len() implies keys[i] == key by {
        lemma_bucket_occurs(pairs, keys[i]);
    }
    if keys.len() > 1 {
        assert(keys[0] == keys[1]);
    }
}

/// Boundary: of two or more files that are all empty there is exactly one
/// group, and it holds all of them.
pub proof fn lemma_all_empty(groups: Seq<Seq<String>>, files: Seq<FileImage>)
    requires
        partitions(groups, signed(files), 2),
        files.len() >= 2,
        forall|i: int| 0 <= i < files.len() ==> (#[trigger] files[i]).content@.len() == 0,
    ensures
        groups.len() == 1,
        groups[0].to_multiset() == files.map_values(|f: FileImage| f.path).to_multiset(),
{
    assert forall|i: int| 0 <= i < files.len() implies (#[trigger] signed(files)[i]).0 == signed(
        files,
    )[0].0 by {
        assert(files[i].content@ =~= files[0].content@);
    }
    lemma_all_shared(groups, signed(files));
    assert(signed(files).map_values(|p: ((u64, Seq<u8>), String)| p.1) =~= files.map_values(
        |f: FileImage| f.path,
    ));
}

} // verus!
