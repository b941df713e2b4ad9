use fdup::multimap::fold_pair;
use fdup::multimap::union_multimap;
use std::collections::BTreeMap;

fn mapping(entries: &[(u64, &[u32])]) -> BTreeMap<u64, Vec<u32>> {
    entries.iter().map(|(key, list)| (*key, list.to_vec())).collect()
}

fn unordered(m: BTreeMap<u64, Vec<u32>>) -> BTreeMap<u64, Vec<u32>> {
    m.into_iter()
        .map(|(key, mut list)| {
            list.sort();
            (key, list)
        })
        .collect()
}

#[test]
fn fold_starts_a_list_for_a_new_key() {
    let out = fold_pair(BTreeMap::new(), (3u64, 30u32));
    assert_eq!(out, mapping(&[(3, &[30])]));
}

#[test]
fn fold_appends_to_the_list_of_a_known_key() {
    let acc = mapping(&[(3, &[30, 31]), (4, &[40])]);
    let out = fold_pair(acc, (3, 32));
    assert_eq!(out, mapping(&[(3, &[30, 31, 32]), (4, &[40])]));
}

#[test]
fn union_of_empty_mappings_is_empty() {
    let out: BTreeMap<u64, Vec<u32>> = union_multimap(BTreeMap::new(), BTreeMap::new());
    assert!(out.is_empty());
}

#[test]
fn union_with_an_empty_mapping_changes_nothing() {
    let m = mapping(&[(1, &[10]), (2, &[20, 21])]);
    assert_eq!(union_multimap(m.clone(), BTreeMap::new()), m);
    assert_eq!(union_multimap(BTreeMap::new(), m.clone()), m);
}

#[test]
fn union_drains_the_mapping_with_fewer_keys() {
    let small = mapping(&[(2, &[1, 2])]);
    let large = mapping(&[(1, &[10]), (2, &[20, 21]), (3, &[30])]);
    let expected = mapping(&[(1, &[10]), (2, &[20, 21, 1, 2]), (3, &[30])]);
    assert_eq!(union_multimap(small.clone(), large.clone()), expected);
    assert_eq!(union_multimap(large, small), expected);
}

#[test]
fn union_of_equally_many_keys_drains_the_left() {
    let lhs = mapping(&[(1, &[1]), (2, &[2])]);
    let rhs = mapping(&[(2, &[20]), (3, &[30])]);
    let out = union_multimap(lhs, rhs);
    assert_eq!(out, mapping(&[(1, &[1]), (2, &[20, 2]), (3, &[30])]));
}

#[test]
fn union_keeps_every_item_once() {
    let a = mapping(&[(1, &[1, 2]), (2, &[3]), (5, &[4])]);
    let b = mapping(&[(2, &[5, 6]), (3, &[7])]);
    let out = unordered(union_multimap(a, b));
    assert_eq!(out, mapping(&[(1, &[1, 2]), (2, &[3, 5, 6]), (3, &[7]), (5, &[4])]));
    let items: usize = out.values().map(|list| list.len()).sum();
    assert_eq!(items, 7);
}

#[test]
fn union_is_the_same_either_way_round() {
    let a = mapping(&[(1, &[1, 2]), (2, &[3]), (5, &[4])]);
    let b = mapping(&[(2, &[5, 6]), (3, &[7]), (5, &[8]), (9, &[9])]);
    assert_eq!(
        unordered(union_multimap(a.clone(), b.clone())),
        unordered(union_multimap(b, a))
    );
}

#[test]
fn union_of_three_is_the_same_in_any_pairing() {
    let a = mapping(&[(1, &[1]), (2, &[2])]);
    let b = mapping(&[(2, &[3]), (3, &[4])]);
    let c = mapping(&[(1, &[5]), (3, &[6]), (4, &[7])]);
    let left = union_multimap(union_multimap(a.clone(), b.clone()), c.clone());
    let right = union_multimap(a, union_multimap(b, c));
    assert_eq!(unordered(left), unordered(right));
}
