use fdup::checksum::get_sha512_hash;
use fdup::partition::groups_of_at_least;
use fdup::partition::partition_by_key;
use fdup::pipeline::duplicates_by_checksum;
use fdup::pipeline::hash_partition;
use fdup::pipeline::size_partition;

fn normalized(mut groups: Vec<Vec<u32>>) -> Vec<Vec<u32>> {
    for group in groups.iter_mut() {
        group.sort();
    }
    groups.sort();
    groups
}

#[test]
fn partition_groups_equal_keys() {
    let items: Vec<u32> = vec![10, 20, 11, 30, 21, 12];
    let groups = normalized(partition_by_key(|item: &u32| (item / 10) as u64, items));
    assert_eq!(groups, vec![vec![10, 11, 12], vec![20, 21], vec![30]]);
}

#[test]
fn partition_of_nothing_is_empty() {
    let items: Vec<u32> = Vec::new();
    assert!(partition_by_key(|item: &u32| *item as u64, items).is_empty());
}

#[test]
fn partition_by_one_key_for_all_is_one_group() {
    let items: Vec<u32> = vec![3, 1, 2];
    assert_eq!(normalized(partition_by_key(|_: &u32| 0u64, items)), vec![vec![1, 2, 3]]);
}

#[test]
fn partition_by_a_key_of_its_own_for_each_is_all_singletons() {
    let items: Vec<u32> = vec![3, 1, 2];
    let groups = normalized(partition_by_key(|item: &u32| *item as u64, items));
    assert_eq!(groups, vec![vec![1], vec![2], vec![3]]);
}

#[test]
fn size_partition_drops_singletons() {
    let sized: Vec<(u64, u32)> = vec![(5, 1), (0, 2), (5, 3), (7, 4), (0, 5)];
    let groups = normalized(size_partition(sized));
    assert_eq!(groups, vec![vec![1, 3], vec![2, 5]]);
}

#[test]
fn hash_partition_works_within_each_group() {
    let a = get_sha512_hash(b"a");
    let b = get_sha512_hash(b"b");
    let tagged = vec![vec![(a, 1u32), (b, 2), (a, 3)], vec![(a, 4), (b, 5)], vec![(b, 6), (b, 7)]];
    let groups = normalized(hash_partition(tagged));
    assert_eq!(groups, vec![vec![1, 3], vec![6, 7]]);
}

#[test]
fn large_input_is_grouped_in_parallel() {
    let items: Vec<u32> = (0..100_000u32).collect();
    let groups = partition_by_key(|i: &u32| (i % 1000) as u64, items);
    assert_eq!(groups.len(), 1000);
    for group in &groups {
        assert_eq!(group.len(), 100);
        let key = group[0] % 1000;
        assert!(group.iter().all(|i| i % 1000 == key));
    }
}

#[test]
fn groups_below_the_least_size_are_dropped() {
    let pairs = || -> Vec<(u64, u32)> {
        vec![(1, 10), (2, 20), (1, 11), (3, 30), (2, 21), (1, 12)]
    };
    assert_eq!(
        normalized(groups_of_at_least(pairs(), 0)),
        vec![vec![10, 11, 12], vec![20, 21], vec![30]]
    );
    assert_eq!(
        normalized(groups_of_at_least(pairs(), 1)),
        vec![vec![10, 11, 12], vec![20, 21], vec![30]]
    );
    assert_eq!(normalized(groups_of_at_least(pairs(), 2)), vec![vec![10, 11, 12], vec![20, 21]]);
    assert_eq!(normalized(groups_of_at_least(pairs(), 3)), vec![vec![10, 11, 12]]);
    assert!(groups_of_at_least(pairs(), 4).is_empty());
}

#[test]
fn partition_works_with_keys_of_several_parts() {
    let pairs: Vec<((u64, u128), char)> =
        vec![((1, 1), 'a'), ((1, 2), 'b'), ((2, 1), 'c'), ((1, 1), 'd'), ((2, 1), 'e')];
    let mut groups = groups_of_at_least(pairs, 1);
    for group in groups.iter_mut() {
        group.sort();
    }
    groups.sort();
    assert_eq!(groups, vec![vec!['a', 'd'], vec!['b'], vec!['c', 'e']]);
}

#[test]
fn an_item_given_twice_is_kept_twice() {
    let pairs: Vec<(u64, u32)> = vec![(1, 7), (1, 7), (2, 7)];
    assert_eq!(normalized(groups_of_at_least(pairs, 1)), vec![vec![7], vec![7, 7]]);
}

#[test]
fn files_of_one_size_are_told_apart_by_checksum() {
    let a = get_sha512_hash(b"aa");
    let b = get_sha512_hash(b"bb");
    let c = get_sha512_hash(b"cc");
    let group = vec![(a, 1u32), (b, 2), (c, 3), (b, 4), (a, 5), (b, 6)];
    assert_eq!(normalized(duplicates_by_checksum(group)), vec![vec![1, 5], vec![2, 4, 6]]);
}
