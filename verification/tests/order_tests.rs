use fdup::order::bytes_le;
use fdup::order::comes_before;
use fdup::order::sort_paths;
use fdup::pipeline::finalize;
use fdup::pipeline::regular_files;
use fdup::pipeline::EntryKind;

fn paths(names: &[&str]) -> Vec<String> {
    names.iter().map(|name| name.to_string()).collect()
}

#[test]
fn the_first_differing_byte_decides() {
    assert!(bytes_le(b"abc", b"abd"));
    assert!(!bytes_le(b"abd", b"abc"));
    assert!(bytes_le(b"Z", b"a"));
}

#[test]
fn a_prefix_comes_first() {
    assert!(bytes_le(b"", b""));
    assert!(bytes_le(b"", b"a"));
    assert!(!bytes_le(b"a", b""));
    assert!(bytes_le(b"ab", b"abc"));
    assert!(!bytes_le(b"abc", b"ab"));
    assert!(bytes_le(b"abc", b"abc"));
}

#[test]
fn bytes_are_compared_unsigned() {
    assert!(bytes_le(&[0x7f], &[0x80]));
    assert!(!bytes_le(&[0xff], &[0x00]));
}

#[test]
fn paths_are_compared_by_their_bytes() {
    assert!(comes_before(&"d1/f1".to_string(), &"d1/f2".to_string()));
    assert!(!comes_before(&"d1/f2".to_string(), &"d1/f1".to_string()));
    assert!(comes_before(&"z".to_string(), &"\u{e9}".to_string()));
}

#[test]
fn sort_agrees_with_the_standard_order_of_strings() {
    let given = paths(&["d1/f3", "d1/d2/d3/d4/f8", "", "d1/d2/d3/d4/f7", "a", "d1", "d1/", "B", "a"]);
    let mut expected = given.clone();
    expected.sort();
    assert_eq!(sort_paths(given), expected);
}

#[test]
fn sort_of_none_and_of_one() {
    assert_eq!(sort_paths(Vec::new()), Vec::<String>::new());
    assert_eq!(sort_paths(paths(&["only"])), paths(&["only"]));
}

#[test]
fn sort_of_many() {
    let given: Vec<String> = (0..1000u32).map(|i| format!("{}", (i * 7919) % 1000)).collect();
    let mut expected = given.clone();
    expected.sort();
    assert_eq!(sort_paths(given), expected);
}

#[test]
fn finalize_sorts_only_on_request() {
    let groups = vec![paths(&["b", "a", "c"]), paths(&["z", "y"])];
    assert_eq!(finalize(groups.clone(), false), groups);
    assert_eq!(finalize(groups, true), vec![paths(&["a", "b", "c"]), paths(&["y", "z"])]);
}

#[test]
fn intake_keeps_regular_files_in_order() {
    let entries = vec![
        (EntryKind::Directory, "d1"),
        (EntryKind::File, "d1/f1"),
        (EntryKind::Symlink, "d1/link"),
        (EntryKind::File, "d1/f2"),
        (EntryKind::Other, "d1/socket"),
        (EntryKind::Directory, "d1/d2"),
        (EntryKind::File, "d1/d2/f4"),
    ];
    assert_eq!(regular_files(entries), vec!["d1/f1", "d1/f2", "d1/d2/f4"]);
}

#[test]
fn intake_of_nothing() {
    let entries: Vec<(EntryKind, u8)> = Vec::new();
    assert!(regular_files(entries).is_empty());
}
