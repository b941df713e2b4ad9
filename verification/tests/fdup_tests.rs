use fdup::checksum::get_sha512_hash;
use fdup::pipeline::get_file_size;
use fdup::pipeline::group_duplicate_files;
use fdup::pipeline::FileImage;
use std::collections::HashSet;

fn image(path: &str, content: &str) -> FileImage {
    FileImage { path: path.to_string(), content: content.as_bytes().to_vec() }
}

fn test_data() -> Vec<String> {
    vec![
        " ",
        " 12p oka0sd k\n rn12w\r\r\n \t asof AWSDJO !@# @$ ",
        "",
        "12asdopjkzx",
        "2",
        "QxmPzHlMLisNDJm3LKT5LRoTyU9Z06ze",
        "\n",
        "\r",
        "\r\n",
        "\t",
        "g",
    ]
    .into_iter()
    .map(String::from)
    .collect()
}

fn as_sets(groups: Vec<Vec<String>>) -> HashSet<Vec<String>> {
    groups
        .into_iter()
        .map(|mut group| {
            group.sort();
            group
        })
        .collect()
}

// Check that `get_sha512_hash` returns a unique checksum for each test data.
#[test]
fn test_get_sha512_hash() {
    let sums: HashSet<Vec<u8>> = test_data()
        .into_iter()
        .map(|content| {
            // pseudo check that the function is deterministic
            let sums: HashSet<Vec<u8>> =
                (0..4).map(|_| get_sha512_hash(content.as_bytes()).to_vec()).collect();
            assert_eq!(1, sums.len());
            sums.into_iter().nth(0).unwrap()
        })
        .collect();

    // # of checksums == # of input data
    assert_eq!(test_data().len(), sums.len());
}

// Check that `get_file_size` returns the correct file size in bytes.
#[test]
fn test_get_file_size() {
    for (index, content) in test_data().into_iter().enumerate() {
        let file = image(&format!("file_{}", index), &content);
        let result = get_file_size(&file);
        let expected = content.len();
        assert_eq!(expected as u64, result);
    }
}

// E2E test.
#[test]
fn fdup() {
    let files = vec![
        image("d1/f1", ""),
        image("d1/f2", ""),
        image("d1/f3", "\n"),
        image("d1/d2/f4", "a\nbc2"),
        image("d1/d2/d3/f4", "abcde"),
        image("d1/d2/d3/d4/f6", "a\nbc2"),
        image("d1/d2/d3/d4/f7", "\n"),
        image("d1/d2/d3/d4/f8", "\n"),
    ];

    let results: HashSet<Vec<String>> = as_sets(group_duplicate_files(false, files));
    let expected = HashSet::from([
        vec!["d1/f1".to_string(), "d1/f2".to_string()],
        vec!["d1/d2/d3/d4/f6".to_string(), "d1/d2/f4".to_string()],
        vec![
            "d1/d2/d3/d4/f7".to_string(),
            "d1/d2/d3/d4/f8".to_string(),
            "d1/f3".to_string(),
        ],
    ]);
    assert_eq!(expected, results);
}

#[test]
fn unique_content_is_in_no_group() {
    let files = vec![image("a", "abcde"), image("b", "a\nbc2"), image("c", "a\nbc2")];
    let groups = group_duplicate_files(true, files);
    assert_eq!(groups, vec![vec!["b".to_string(), "c".to_string()]]);
}

#[test]
fn same_size_but_different_content_is_not_grouped() {
    let files = vec![image("a", "abc"), image("b", "abd"), image("c", "xyz")];
    assert!(group_duplicate_files(false, files).is_empty());
}

#[test]
fn every_duplicate_is_in_exactly_one_group() {
    let files = vec![
        image("one.txt", "one"),
        image("two.txt", "two"),
        image("three.txt", "one"),
        image("four.txt", "three"),
        image("five.txt", "two"),
        image("six.txt", "one"),
        image("seven.txt", "four"),
    ];
    let groups = group_duplicate_files(false, files);
    let count = |path: &str| groups.iter().flatten().filter(|p| p.as_str() == path).count();
    for path in ["one.txt", "two.txt", "three.txt", "five.txt", "six.txt"] {
        assert_eq!(count(path), 1);
    }
    for path in ["four.txt", "seven.txt"] {
        assert_eq!(count(path), 0);
    }
    assert_eq!(
        as_sets(groups),
        HashSet::from([
            vec!["one.txt".to_string(), "six.txt".to_string(), "three.txt".to_string()],
            vec!["five.txt".to_string(), "two.txt".to_string()],
        ])
    );
}

#[test]
fn groups_hold_files_of_one_size_and_one_checksum() {
    let contents = ["", "x", "y", "x", "", "xx", "yy", "xx", "y"];
    let files: Vec<FileImage> = contents
        .iter()
        .enumerate()
        .map(|(i, content)| image(&format!("f{}", i), content))
        .collect();
    let groups = group_duplicate_files(false, files);
    assert_eq!(groups.len(), 4);
    let mut seen = HashSet::new();
    for group in &groups {
        assert!(group.len() >= 2);
        let content_of = |path: &String| contents[path[1..].parse::<usize>().unwrap()];
        for path in group {
            assert_eq!(content_of(path), content_of(&group[0]));
            assert!(seen.insert(path.clone()));
        }
    }
}

#[test]
fn a_second_run_finds_the_same_groups() {
    let files = || {
        vec![
            image("a", "1"),
            image("b", "2"),
            image("c", "1"),
            image("d", "2"),
            image("e", "3"),
            image("f", "1"),
        ]
    };
    let first = group_duplicate_files(false, files());
    let second = group_duplicate_files(false, files());
    assert_eq!(as_sets(first), as_sets(second));
}

#[test]
fn no_file_no_group() {
    assert!(group_duplicate_files(false, Vec::new()).is_empty());
    assert!(group_duplicate_files(true, Vec::new()).is_empty());
}

#[test]
fn no_duplicate_no_group() {
    let files = vec![image("a", ""), image("b", "b"), image("c", "cc"), image("d", "dd2")];
    assert!(group_duplicate_files(false, files).is_empty());
}

#[test]
fn a_single_empty_file_is_no_group() {
    assert!(group_duplicate_files(false, vec![image("only", "")]).is_empty());
}

#[test]
fn empty_files_form_one_group() {
    let files = vec![image("z", ""), image("x", ""), image("y", ""), image("w", "")];
    let groups = group_duplicate_files(true, files);
    assert_eq!(
        groups,
        vec![vec!["w".to_string(), "x".to_string(), "y".to_string(), "z".to_string()]]
    );
}

#[test]
fn sorting_orders_each_group_by_bytes() {
    let files = vec![
        image("b/2", "same"),
        image("a/10", "same"),
        image("a/1", "same"),
        image("B", "same"),
        image("a", "same"),
        image("\u{e9}", "same"),
        image("z", "same"),
    ];
    let groups = group_duplicate_files(true, files);
    let expected: Vec<String> =
        ["B", "a", "a/1", "a/10", "b/2", "z", "\u{e9}"].iter().map(|s| s.to_string()).collect();
    assert_eq!(groups, vec![expected]);
}

#[test]
fn content_longer_than_one_chunk_is_hashed_to_its_end() {
    let mut long = vec![7u8; 3 * 4096 + 5];
    let a = FileImage { path: "a".to_string(), content: long.clone() };
    let b = FileImage { path: "b".to_string(), content: long.clone() };
    let last = long.len() - 1;
    long[last] = 8;
    let c = FileImage { path: "c".to_string(), content: long };
    let groups = group_duplicate_files(true, vec![a, b, c]);
    assert_eq!(groups, vec![vec!["a".to_string(), "b".to_string()]]);
}
