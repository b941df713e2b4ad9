use std::collections::BTreeMap;
use vstd::prelude::*;
use vstd::std_specs::iter::IteratorSpec;

verus! {

/// Whether the keys of type `K` are ordered the way a total order must be, so
/// that a map keyed by them finds again what was put in.
pub open spec fn lawful_keys<K: Ord>() -> bool {
    vstd::laws_cmp::obeys_cmp::<K>()
}

/// The lists of a key-to-list mapping, each as a sequence.
pub open spec fn lists<K, T>(m: BTreeMap<K, Vec<T>>) -> Map<K, Seq<T>> {
    Map::new(|k: K| m@.contains_key(k), |k: K| m@[k]@)
}

/// The mapping after one more item has arrived under `key`: the item is
/// appended to the key's list, or starts one.
pub open spec fn with_item<K, T>(m: Map<K, Seq<T>>, key: K, item: T) -> Map<K, Seq<T>> {
    if m.contains_key(key) {
        m.insert(key, m[key].push(item))
    } else {
        m.insert(key, seq![item])
    }
}

/// `into` after every list of `from` has been appended to the list under the
/// same key, or moved over where `into` had none.
pub open spec fn merged<K, T>(into: Map<K, Seq<T>>, from: Map<K, Seq<T>>) -> Map<K, Seq<T>> {
    Map::new(
        |k: K| into.contains_key(k) || from.contains_key(k),
        |k: K|
            if into.contains_key(k) && from.contains_key(k) {
                into[k] + from[k]
            } else if into.contains_key(k) {
                into[k]
            } else {
                from[k]
            },
    )
}

/// The union of two mappings: the one with fewer keys is drained into the
/// other, and so comes second in each list that both have.
pub open spec fn union_of<K, T>(lhs: Map<K, Seq<T>>, rhs: Map<K, Seq<T>>) -> Map<K, Seq<T>> {
    if lhs.dom().len() <= rhs.dom().len() {
        merged(rhs, lhs)
    } else {
        merged(lhs, rhs)
    }
}

/// A mapping without keys: what every fold starts from.
pub fn empty_multimap<K, T>() -> (out: BTreeMap<K, Vec<T>>)
    ensures
        lists(out) == Map::<K, Seq<T>>::empty(),
{
    BTreeMap::new()
}

/// Appends `list` to the list under `key`, or puts it there where there is none.
fn absorb_list<K: Ord + Copy, T>(target: &mut BTreeMap<K, Vec<T>>, key: K, list: Vec<T>)
    requires
        lawful_keys::<K>(),
    ensures
        lists(*final(target)) == merged(lists(*old(target)), Map::empty().insert(key, list@)),
{
    let mut list = list;
    match target.remove(&key) {
        Some(mut present) => {
            present.append(&mut list);
            target.insert(key, present);
        },
        None => {
            target.insert(key, list);
        },
    }
}

/// Fold step of the partition: appends the item `pair.1` to the list under the
/// key `pair.0`, creating the list if absent.
pub fn fold_pair<K: Ord + Copy, T>(acc: BTreeMap<K, Vec<T>>, pair: (K, T)) -> (out: BTreeMap<
    K,
    Vec<T>,
>)
    requires
        lawful_keys::<K>(),
    ensures
        lists(out) == with_item(lists(acc), pair.0, pair.1),
{
    let mut out = acc;
    let (key, item) = pair;
    let mut list = Vec::new();
    list.push(item);
    absorb_list(&mut out, key, list);
    assert(lists(out) =~= with_item(lists(acc), key, item)) by {
        if lists(acc).contains_key(key) {
            assert(lists(acc)[key] + seq![item] =~= lists(acc)[key].push(item));
        }
    }
    out
}

/// The keys of `m`, each once.
pub(crate) fn key_list<K: Ord + Copy, V>(m: &BTreeMap<K, V>) -> (keys: Vec<K>)
    requires
        lawful_keys::<K>(),
    ensures
        keys@.no_duplicates(),
        keys@.to_set() == m@.dom(),
{
    let mut keys: Vec<K> = Vec::new();
    for key in it: m.keys()
        invariant
            keys@.len() == it.index(),
            forall|i: int| 0 <= i < keys@.len() ==> keys@[i] == *it.seq()[i],
            it.seq() == m.keys().remaining(),
    {
        keys.push(*key);
    }
    assert(keys@ =~= m.keys().remaining().unref());
    keys
}

/// Going one key further along a list of distinct keys adds that key, a new
/// one, to the set of keys already passed.
pub(crate) proof fn lemma_prefix_step<K>(keys: Seq<K>, i: int)
    requires
        0 <= i < keys.len(),
        keys.no_duplicates(),
    ensures
        keys.take(i + 1).to_set() == keys.take(i).to_set().insert(keys[i]),
        !keys.take(i).to_set().contains(keys[i]),
        keys.to_set().contains(keys[i]),
{
    assert(keys.take(i + 1) =~= keys.take(i).push(keys[i]));
    keys.take(i).lemma_push_to_set_commute(keys[i]);
}

/// Moves every list of `source` into `target`.
fn drain_into<K: Ord + Copy, T>(source: BTreeMap<K, Vec<T>>, target: BTreeMap<K, Vec<T>>) -> (out:
    BTreeMap<K, Vec<T>>)
    requires
        lawful_keys::<K>(),
    ensures
        lists(out) == merged(lists(target), lists(source)),
{
    let mut source = source;
    let mut target = target;
    let ghost from = lists(source);
    let ghost into = lists(target);
    let keys = key_list(&source);
    let mut i: usize = 0;
    while i < keys.len()
        invariant
            lawful_keys::<K>(),
            i <= keys.len(),
            keys@.no_duplicates(),
            keys@.to_set() == from.dom(),
            lists(source) == from.remove_keys(keys@.take(i as int).to_set()),
            lists(target) == merged(into, from.restrict(keys@.take(i as int).to_set())),
        decreases keys.len() - i,
    {
        let key = keys[i];
        let ghost left = lists(source);
        proof {
            lemma_prefix_step(keys@, i as int);
            assert(left.contains_key(key) && left[key] == from[key]);
        }
        if let Some(list) = source.remove(&key) {
            absorb_list(&mut target, key, list);
        }
        assert(lists(source) =~= left.remove(key));
        i += 1;
    }
    assert(keys@.take(i as int) =~= keys@);
    target
}

/// Union of `lhs` and `rhs`: a list under each key that either has, holding
/// the items of both under that key. The mapping with fewer keys is drained
/// into the one with more.
pub fn union_multimap<K: Ord + Copy, T>(lhs: BTreeMap<K, Vec<T>>, rhs: BTreeMap<K, Vec<T>>) -> (out:
    BTreeMap<K, Vec<T>>)
    requires
        lawful_keys::<K>(),
    ensures
        lists(out) == union_of(lists(lhs), lists(rhs)),
{
    assert(lists(lhs).dom() =~= lhs@.dom());
    assert(lists(rhs).dom() =~= rhs@.dom());
    if lhs.len() <= rhs.len() {
        drain_into(lhs, rhs)
    } else {
        drain_into(rhs, lhs)
    }
}

} // verus!
