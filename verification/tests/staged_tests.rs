use fdup::checksum::Checksum;
use fdup::checksum::ContentHasher;
use fdup::checksum::Progress;
use fdup::checksum::CHUNK_SIZE;
use fdup::pipeline::finalize;
use fdup::pipeline::group_duplicate_files;
use fdup::pipeline::hash_partition;
use fdup::pipeline::regular_files;
use fdup::pipeline::size_partition;
use fdup::pipeline::EntryKind;
use fdup::pipeline::FileImage;

// Reads `content` the way a file is read: into a buffer of `CHUNK_SIZE` bytes,
// until a read yields nothing.
fn streamed_checksum(content: &[u8]) -> Checksum {
    let mut buffer = [0u8; CHUNK_SIZE];
    let mut hasher = ContentHasher::new();
    let mut offset = 0;
    loop {
        let size = std::cmp::min(CHUNK_SIZE, content.len() - offset);
        buffer[..size].copy_from_slice(&content[offset..offset + size]);
        offset += size;
        match hasher.absorb(&buffer, size) {
            Progress::Done(sum) => break sum,
            Progress::More(next) => hasher = next,
        }
    }
}

fn tree() -> Vec<(EntryKind, FileImage)> {
    let entry = |kind: EntryKind, path: &str, content: &[u8]| {
        (kind, FileImage { path: path.to_string(), content: content.to_vec() })
    };
    let long = vec![42u8; 2 * CHUNK_SIZE + 17];
    vec![
        entry(EntryKind::Directory, "d1", b""),
        entry(EntryKind::File, "d1/f1", b""),
        entry(EntryKind::File, "d1/f2", b""),
        entry(EntryKind::File, "d1/f3", b"\n"),
        entry(EntryKind::Symlink, "d1/link", b""),
        entry(EntryKind::Directory, "d1/d2", b""),
        entry(EntryKind::File, "d1/d2/f4", b"a\nbc2"),
        entry(EntryKind::File, "d1/d2/long", &long),
        entry(EntryKind::File, "d1/d2/d3/f4", b"abcde"),
        entry(EntryKind::File, "d1/d2/d3/d4/f6", b"a\nbc2"),
        entry(EntryKind::File, "d1/d2/d3/d4/f7", b"\n"),
        entry(EntryKind::File, "d1/d2/d3/d4/f8", b"\n"),
        entry(EntryKind::File, "d1/d2/d3/d4/long", &long),
        entry(EntryKind::Other, "d1/pipe", b"\n"),
    ]
}

fn paths(names: &[&str]) -> Vec<String> {
    names.iter().map(|name| name.to_string()).collect()
}

#[test]
fn the_stages_in_a_row_find_the_duplicates() {
    let files = regular_files(tree());
    assert_eq!(files.len(), 10);

    let sized: Vec<(u64, FileImage)> =
        files.into_iter().map(|file| (file.content.len() as u64, file)).collect();
    let candidates = size_partition(sized);
    assert_eq!(candidates.len(), 4);

    let tagged: Vec<Vec<(Checksum, String)>> = candidates
        .into_iter()
        .map(|group| {
            group.into_iter().map(|file| (streamed_checksum(&file.content), file.path)).collect()
        })
        .collect();

    let mut groups = finalize(hash_partition(tagged), true);
    groups.sort();
    assert_eq!(
        groups,
        vec![
            paths(&["d1/d2/d3/d4/f6", "d1/d2/f4"]),
            paths(&["d1/d2/d3/d4/f7", "d1/d2/d3/d4/f8", "d1/f3"]),
            paths(&["d1/d2/d3/d4/long", "d1/d2/long"]),
            paths(&["d1/f1", "d1/f2"]),
        ]
    );
}

#[test]
fn the_stages_agree_with_the_whole() {
    let files = regular_files(tree());
    let mut whole = group_duplicate_files(true, files.clone());
    whole.sort();

    let sized: Vec<(u64, FileImage)> =
        files.into_iter().map(|file| (file.content.len() as u64, file)).collect();
    let tagged: Vec<Vec<(Checksum, String)>> = size_partition(sized)
        .into_iter()
        .map(|group| {
            group.into_iter().map(|file| (streamed_checksum(&file.content), file.path)).collect()
        })
        .collect();
    let mut staged = finalize(hash_partition(tagged), true);
    staged.sort();

    assert_eq!(whole, staged);
}
