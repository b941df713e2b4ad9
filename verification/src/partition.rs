use crate::bucket::bucket;
use crate::bucket::distinguishes;
use crate::bucket::lemma_bucket_concat;
use crate::bucket::lemma_bucket_occurs;
use crate::bucket::lemma_bucket_rekeyed;
use crate::bucket::rekeyed;
use crate::multimap::empty_multimap;
use crate::multimap::fold_pair;
use crate::multimap::key_list;
use crate::multimap::lawful_keys;
use crate::multimap::lemma_prefix_step;
use crate::multimap::lists;
use crate::multimap::union_multimap;
use crate::multimap::union_of;
use crate::multimap::with_item;
use rayon::iter::IntoParallelIterator;
use rayon::iter::ParallelIterator;
use std::collections::BTreeMap;
use vstd::prelude::*;

verus! {

/// How a parallel fold-then-merge went about its work: which runs of
/// consecutive items were folded on their own, and how the partial mappings
/// were paired up for merging.
pub enum Plan<K, T> {
    /// One run of items, folded one after the other into an empty mapping.
    Run(Seq<(K, T)>),
    /// Two partial results, merged.
    Merge(Box<Plan<K, T>>, Box<Plan<K, T>>),
}

impl<K, T> Plan<K, T> {
    /// All items that the plan covers, in the order in which they were given.
    pub open spec fn items(self) -> Seq<(K, T)>
        decreases self,
    {
        match self {
            Plan::Run(pairs) => pairs,
            Plan::Merge(left, right) => left.items() + right.items(),
        }
    }

    /// The mapping that carrying out the plan yields.
    pub open spec fn outcome(self) -> Map<K, Seq<T>>
        decreases self,
    {
        match self {
            Plan::Run(pairs) => folded(Map::empty(), pairs),
            Plan::Merge(left, right) => union_of(left.outcome(), right.outcome()),
        }
    }
}

/// The mapping after every pair of `pairs` has been folded into `m`, in order.
pub open spec fn folded<K, T>(m: Map<K, Seq<T>>, pairs: Seq<(K, T)>) -> Map<K, Seq<T>>
    decreases pairs.len(),
{
    if pairs.len() == 0 {
        m
    } else {
        with_item(folded(m, pairs.drop_last()), pairs.last().0, pairs.last().1)
    }
}

/// Whether `m` is what some plan over exactly the items `pairs` yields.
pub open spec fn reachable<K, T>(m: Map<K, Seq<T>>, pairs: Seq<(K, T)>) -> bool {
    exists|plan: Plan<K, T>| plan.items() == pairs && m == #[trigger] plan.outcome()
}

/// Whether `m` holds, under each key, exactly the items that came with that
/// key in `pairs`, in some order, and has no key without items.
pub open spec fn gathers<K, T>(m: Map<K, Seq<T>>, pairs: Seq<(K, T)>) -> bool {
    &&& forall|k: K|
        #![trigger m.contains_key(k)]
        #![trigger bucket(pairs, k)]
        m.contains_key(k) <==> bucket(pairs, k).len() > 0
    &&& forall|k: K|
        #![trigger m[k]]
        #![trigger bucket(pairs, k)]
        m.contains_key(k) ==> m[k].to_multiset() == bucket(pairs, k).to_multiset()
}

/// Folding pairs one by one into an empty mapping leaves each bucket under
/// its key, in arrival order.
pub proof fn lemma_folded_buckets<K, T>(pairs: Seq<(K, T)>)
    ensures
        forall|k: K|
            #![trigger folded(Map::empty(), pairs).contains_key(k)]
            folded(Map::empty(), pairs).contains_key(k) <==> bucket(pairs, k).len() > 0,
        forall|k: K|
            #![trigger folded(Map::empty(), pairs)[k]]
            folded(Map::empty(), pairs).contains_key(k) ==> folded(Map::empty(), pairs)[k]
                == bucket(pairs, k),
        gathers(folded(Map::empty(), pairs), pairs),
    decreases pairs.len(),
{
    if pairs.len() > 0 {
        lemma_folded_buckets(pairs.drop_last());
    }
    let m = folded(Map::<K, Seq<T>>::empty(), pairs);
    assert forall|k: K| m.contains_key(k) implies m[k] == bucket(pairs, k) by {}
}

/// Merging two mappings that gather two lists of pairs gathers the two lists
/// taken together.
pub proof fn lemma_union_gathers<K, T>(
    a: Map<K, Seq<T>>,
    b: Map<K, Seq<T>>,
    left: Seq<(K, T)>,
    right: Seq<(K, T)>,
)
    requires
        gathers(a, left),
        gathers(b, right),
    ensures
        gathers(union_of(a, b), left + right),
{
    let u = union_of(a, b);
    assert forall|k: K| u.contains_key(k) <==> bucket(left + right, k).len() > 0 by {
        lemma_bucket_concat(left, right, k);
    }
    assert forall|k: K| u.contains_key(k) implies u[k].to_multiset() == bucket(
        left + right,
        k,
    ).to_multiset() by {
        lemma_bucket_concat(left, right, k);
        vstd::seq_lib::lemma_multiset_commutative(bucket(left, k), bucket(right, k));
        if a.contains_key(k) && b.contains_key(k) {
            vstd::seq_lib::lemma_multiset_commutative(a[k], b[k]);
            vstd::seq_lib::lemma_multiset_commutative(b[k], a[k]);
        }
    }
}

/// Whatever plan a parallel fold-then-merge follows, its outcome gathers the
/// items that the plan covers.
pub proof fn lemma_plan_gathers<K, T>(plan: Plan<K, T>)
    ensures
        gathers(plan.outcome(), plan.items()),
    decreases plan,
{
    match plan {
        Plan::Run(pairs) => {
            lemma_folded_buckets(pairs);
        },
        Plan::Merge(left, right) => {
            lemma_plan_gathers(*left);
            lemma_plan_gathers(*right);
            lemma_union_gathers(left.outcome(), right.outcome(), left.items(), right.items());
        },
    }
}

/// Folds `pairs` into key-to-list mappings on rayon's worker threads and merges
/// them into one: `fold` and `reduce` of rayon's `ParallelIterator`, on the
/// parallel iterator of a `Vec`. Rayon cuts the items into runs of consecutive
/// items, as many as it sees fit, folds each run in order with `fold_pair`,
/// starting from `empty_multimap()`, and merges what the runs yield with
/// `union_multimap`, the earlier run on the left; it may put in further empty
/// mappings. The contract claims that and no more: the result is the outcome
/// of some plan that covers the items in their order. Which plan it was
/// depends on the worker threads.
#[verifier::external_body]
fn fold_and_merge<K: Ord + Copy + Send, T: Send>(pairs: Vec<(K, T)>) -> (out: BTreeMap<K, Vec<T>>)
    requires
        lawful_keys::<K>(),
    ensures
        reachable(lists(out), pairs@),
{
    pairs.into_par_iter().fold(empty_multimap, fold_pair).reduce(empty_multimap, union_multimap)
}

/// The groups of a list of vectors, each as a sequence.
pub open spec fn rows<T>(groups: Seq<Vec<T>>) -> Seq<Seq<T>> {
    groups.map_values(|g: Vec<T>| g@)
}

/// Whether `groups`, with `keys[i]` the key of `groups[i]`, are the buckets
/// of `pairs` that have at least `least` items (and at least one): one group
/// for each such key, holding the bucket's items in some order.
pub open spec fn partitions_by<K, T>(
    groups: Seq<Seq<T>>,
    keys: Seq<K>,
    pairs: Seq<(K, T)>,
    least: nat,
) -> bool {
    &&& keys.len() == groups.len()
    &&& keys.no_duplicates()
    &&& forall|k: K|
        #![trigger keys.contains(k)]
        #![trigger bucket(pairs, k)]
        keys.contains(k) <==> bucket(pairs, k).len() >= least && bucket(pairs, k).len() > 0
    &&& forall|i: int|
        #![trigger groups[i]]
        #![trigger keys[i]]
        0 <= i < groups.len() ==> groups[i].to_multiset() == bucket(pairs, keys[i]).to_multiset()
}

/// Whether `groups` are, in some order, the buckets of `pairs` that have at
/// least `least` items.
pub open spec fn partitions<K, T>(groups: Seq<Seq<T>>, pairs: Seq<(K, T)>, least: nat) -> bool {
    exists|keys: Seq<K>| partitions_by(groups, keys, pairs, least)
}

/// Groups that hold, one for one, the same items as other groups are groups
/// of the same pairs.
pub proof fn lemma_partitions_reordered<K, T>(
    out: Seq<Seq<T>>,
    groups: Seq<Seq<T>>,
    pairs: Seq<(K, T)>,
    least: nat,
)
    requires
        partitions(groups, pairs, least),
        out.len() == groups.len(),
        forall|i: int| 0 <= i < out.len() ==> (#[trigger] out[i]).to_multiset() == groups[i].to_multiset(),
    ensures
        partitions(out, pairs, least),
{
    let keys = choose|keys: Seq<K>| partitions_by(groups, keys, pairs, least);
    assert(partitions_by(out, keys, pairs, least));
}

/// Groups found under new names of the keys are the groups under the keys
/// themselves, where different keys got different names.
pub proof fn lemma_partitions_rekeyed<A, B, T>(
    groups: Seq<Seq<T>>,
    pairs: Seq<(A, T)>,
    rename: spec_fn(A) -> B,
    least: nat,
)
    requires
        partitions(groups, rekeyed(pairs, rename), least),
        distinguishes(pairs, rename),
    ensures
        partitions(groups, pairs, least),
{
    let renamed = rekeyed(pairs, rename);
    let names = choose|names: Seq<B>| partitions_by(groups, names, renamed, least);
    let origin = |name: B|
        choose|i: int| 0 <= i < pairs.len() && rename((#[trigger] pairs[i]).0) == name;
    let keys = names.map_values(|name: B| pairs[origin(name)].0);
    assert forall|n: int| 0 <= n < names.len() implies 0 <= origin(names[n]) < pairs.len()
        && rename(#[trigger] keys[n]) == names[n] by {
        lemma_bucket_occurs(renamed, names[n]);
        let i = choose|i: int| 0 <= i < renamed.len() && (#[trigger] renamed[i]).0 == names[n];
        assert(rename(pairs[i].0) == names[n]);
    }
    assert forall|key: A|
        (exists|i: int| 0 <= i < pairs.len() && (#[trigger] pairs[i]).0 == key) implies bucket(
            renamed,
            rename(key),
        ) == bucket(pairs, key) by {
        lemma_bucket_rekeyed(pairs, rename, key);
    }
    assert forall|key: A|
        keys.contains(key) <==> bucket(pairs, key).len() >= least && bucket(pairs, key).len()
            > 0 by {
        lemma_bucket_occurs(pairs, key);
        if bucket(pairs, key).len() >= least && bucket(pairs, key).len() > 0 {
            let n = choose|n: int| 0 <= n < names.len() && names[n] == rename(key);
            assert(rename(keys[n]) == names[n]);
        }
    }
    assert(partitions_by(groups, keys, pairs, least));
}

/// Takes a mapping apart into its keys and lists.
fn keyed_groups<K: Ord + Copy, T>(m: BTreeMap<K, Vec<T>>) -> (out: Vec<(K, Vec<T>)>)
    requires
        lawful_keys::<K>(),
    ensures
        out@.map_values(|e: (K, Vec<T>)| e.0).no_duplicates(),
        out@.map_values(|e: (K, Vec<T>)| e.0).to_set() == lists(m).dom(),
        forall|i: int| 0 <= i < out.len() ==> (#[trigger] out[i]).1@ == lists(m)[out[i].0],
{
    let mut m = m;
    let ghost whole = lists(m);
    let keys = key_list(&m);
    let mut out: Vec<(K, Vec<T>)> = Vec::new();
    let mut i: usize = 0;
    while i < keys.len()
        invariant
            lawful_keys::<K>(),
            i <= keys.len(),
            keys@.no_duplicates(),
            keys@.to_set() == whole.dom(),
            out.len() == i,
            lists(m) == whole.remove_keys(keys@.take(i as int).to_set()),
            forall|j: int| 0 <= j < i ==> (#[trigger] out[j]).0 == keys[j],
            forall|j: int| 0 <= j < i ==> (#[trigger] out[j]).1@ == whole[keys[j]],
        decreases keys.len() - i,
    {
        let key = keys[i];
        let ghost lists_before = lists(m);
        proof {
            lemma_prefix_step(keys@, i as int);
            assert(lists(m).contains_key(key));
            assert(lists(m)[key] == whole[key]);
        }
        if let Some(list) = m.remove(&key) {
            out.push((key, list));
        }
        assert(lists(m) =~= lists_before.remove(key));
        i += 1;
    }
    assert(out@.map_values(|e: (K, Vec<T>)| e.0) =~= keys@);
    out
}

/// Groups items that come with their keys: returns the groups of `pairs`
/// that have at least `least` items; the keys are dropped, and the order of
/// the groups, and of the items within one, is not promised. The grouping
/// runs as a parallel fold and merge.
pub fn groups_of_at_least<K: Ord + Copy + Send, T: Send>(pairs: Vec<(K, T)>, least: usize) -> (out:
    Vec<Vec<T>>)
    requires
        lawful_keys::<K>(),
    ensures
        partitions(rows(out@), pairs@, least as nat),
{
    let ghost given = pairs@;
    let merged = fold_and_merge(pairs);
    proof {
        let plan = choose|plan: Plan<K, T>|
            plan.items() == given && lists(merged) == #[trigger] plan.outcome();
        lemma_plan_gathers(plan);
    }
    let ghost whole = lists(merged);
    let keyed = keyed_groups(merged);
    let ghost all_keys = keyed@.map_values(|e: (K, Vec<T>)| e.0);
    let ghost mut kept: Seq<K> = Seq::empty();
    let mut out: Vec<Vec<T>> = Vec::new();
    for entry in it: keyed.into_iter()
        invariant
            it.seq() == keyed@,
            all_keys == keyed@.map_values(|e: (K, Vec<T>)| e.0),
            all_keys.no_duplicates(),
            all_keys.to_set() == whole.dom(),
            gathers(whole, given),
            forall|i: int| 0 <= i < keyed.len() ==> (#[trigger] keyed[i]).1@ == whole[keyed[i].0],
            kept.len() == out.len(),
            kept.no_duplicates(),
            forall|k: K|
                kept.contains(k) <==> all_keys.take(it.index() as int).contains(k) && bucket(
                    given,
                    k,
                ).len() >= least,
            forall|i: int|
                0 <= i < out.len() ==> (#[trigger] out[i])@.to_multiset() == bucket(
                    given,
                    kept[i],
                ).to_multiset(),
    {
        let ghost at = it.index() as int;
        let ghost key = entry.0;
        proof {
            lemma_prefix_step(all_keys, at);
            assert(all_keys.take(at + 1) =~= all_keys.take(at).push(key));
            assert(entry.1@.to_multiset().len() == entry.1@.len()) by {
                vstd::seq_lib::to_multiset_len(entry.1@);
            }
            assert(bucket(given, key).to_multiset().len() == bucket(given, key).len()) by {
                vstd::seq_lib::to_multiset_len(bucket(given, key));
            }
        }
        let ghost kept_before = kept;
        let (_, group) = entry;
        if group.len() >= least {
            out.push(group);
            proof {
                assert(!kept.contains(key));
                kept = kept.push(key);
            }
        }
        proof {
            assert forall|k: K|
                kept.contains(k) <==> all_keys.take(at + 1).contains(k) && bucket(given, k).len()
                    >= least by {
                vstd::seq_lib::lemma_seq_contains_after_push(kept_before, key, k);
                vstd::seq_lib::lemma_seq_contains_after_push(all_keys.take(at), key, k);
            }
        }
    }
    proof {
        assert(all_keys.take(keyed.len() as int) =~= all_keys);
        assert(partitions_by(rows(out@), kept, given, least as nat));
    }
    out
}

/// Whether `pairs` are the `items`, each with a key that `get_key` gives for it.
pub open spec fn keys_from<K, T, F: Fn(&T) -> K>(
    pairs: Seq<(K, T)>,
    items: Seq<T>,
    get_key: F,
) -> bool {
    &&& pairs.len() == items.len()
    &&& forall|i: int|
        0 <= i < items.len() ==> (#[trigger] pairs[i]).1 == items[i] && call_ensures(
            get_key,
            (&items[i],),
            pairs[i].0,
        )
}

/// Whether `groups` are, in some order, the `items` put together by the keys
/// that `get_key` gave for them.
pub open spec fn partitions_by_key<K, T, F: Fn(&T) -> K>(
    groups: Seq<Seq<T>>,
    items: Seq<T>,
    get_key: F,
) -> bool {
    exists|pairs: Seq<(K, T)>| keys_from(pairs, items, get_key) && partitions(groups, pairs, 1)
}

/// Partitions `items` into groups such that two items are in the same group
/// exactly if `get_key` gave equal keys for them. The keys are dropped; the
/// order of the groups, and of the items within one, is not promised.
///
/// `get_key` is called once for each item, in order. The grouping is by the
/// keys it gave, whatever it would give when asked again.
pub fn partition_by_key<K: Ord + Copy + Send, T: Send, F: Fn(&T) -> K>(
    get_key: F,
    items: Vec<T>,
) -> (out: Vec<Vec<T>>)
    requires
        lawful_keys::<K>(),
        forall|i: int| 0 <= i < items@.len() ==> call_requires(get_key, (&#[trigger] items@[i],)),
    ensures
        partitions_by_key(rows(out@), items@, get_key),
{
    let mut pairs: Vec<(K, T)> = Vec::new();
    for item in it: items.into_iter()
        invariant
            it.seq() == items@,
            forall|i: int|
                0 <= i < items@.len() ==> call_requires(get_key, (&#[trigger] items@[i],)),
            keys_from(pairs@, items@.take(it.index() as int), get_key),
    {
        let key = get_key(&item);
        pairs.push((key, item));
    }
    assert(items@.take(items@.len() as int) =~= items@);
    groups_of_at_least(pairs, 1)
}

} // verus!
