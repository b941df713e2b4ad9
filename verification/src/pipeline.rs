use crate::bucket::bucket;
use crate::bucket::distinguishes;
use crate::bucket::rekeyed;
use crate::checksum::Checksum;
use crate::checksum::ChecksumKey;
use crate::checksum::checksum_key;
use crate::checksum::get_sha512_hash;
use crate::checksum::key_of;
use crate::checksum::lemma_key_of_injective;
use crate::checksum::sha512;
use crate::order::sort_paths;
use crate::order::sorted;
use crate::partition::groups_of_at_least;
use crate::partition::lemma_partitions_rekeyed;
use crate::partition::lemma_partitions_reordered;
use crate::partition::partitions;
use crate::partition::partitions_by;
use crate::partition::rows;
use crate::stages::flat;
use crate::stages::keyed_by;
use crate::stages::lemma_partitions_extend;
use crate::stages::lemma_two_stages;
use vstd::prelude::*;

verus! {

/// What kind of thing a directory entry is.
#[derive(Clone, Copy, Debug, PartialEq, Eq)]
pub enum EntryKind {
    /// A regular file.
    File,
    /// A directory.
    Directory,
    /// A symbolic link.
    Symlink,
    /// Anything else: a socket, a device, a pipe.
    Other,
}

/// Intake: of the entries that a traversal produced, those that are regular
/// files, in their order.
pub fn regular_files<T>(entries: Vec<(EntryKind, T)>) -> (files: Vec<T>)
    ensures
        files@ == bucket(entries@, EntryKind::File),
{
    let mut files: Vec<T> = Vec::new();
    for entry in it: entries.into_iter()
        invariant
            it.seq() == entries@,
            files@ == bucket(entries@.take(it.index() as int), EntryKind::File),
    {
        let ghost at = it.index() as int;
        assert(entries@.take(at + 1).drop_last() =~= entries@.take(at));
        let (kind, item) = entry;
        match kind {
            EntryKind::File => files.push(item),
            _ => {},
        }
    }
    assert(entries@.take(entries@.len() as int) =~= entries@);
    files
}

/// Size partition: groups the files by their sizes and keeps the groups of two
/// or more. A file whose size no other file has cannot have a duplicate.
pub fn size_partition<T: Send>(sized: Vec<(u64, T)>) -> (out: Vec<Vec<T>>)
    ensures
        partitions(rows(out@), sized@, 2),
{
    groups_of_at_least(sized, 2)
}

/// The pairs, each keyed by the bytes of its checksum.
pub open spec fn by_bytes<T>(pairs: Seq<(Checksum, T)>) -> Seq<(Seq<u8>, T)> {
    pairs.map_values(|p: (Checksum, T)| (p.0@, p.1))
}

/// The groups, each a list of pairs keyed by the bytes of their checksums.
pub open spec fn tagged_rows<T>(groups: Seq<Vec<(Checksum, T)>>) -> Seq<Seq<(Seq<u8>, T)>> {
    groups.map_values(|g: Vec<(Checksum, T)>| by_bytes(g@))
}

/// The pairs with each checksum replaced by its key.
fn with_keys<T>(group: Vec<(Checksum, T)>) -> (out: Vec<(ChecksumKey, T)>)
    ensures
        out@.len() == group@.len(),
        forall|i: int|
            0 <= i < out@.len() ==> #[trigger] out@[i] == (key_of(group@[i].0@), group@[i].1),
{
    let mut out: Vec<(ChecksumKey, T)> = Vec::new();
    for pair in it: group.into_iter()
        invariant
            it.seq() == group@,
            out@.len() == it.index(),
            forall|i: int|
                0 <= i < out@.len() ==> #[trigger] out@[i] == (key_of(group@[i].0@), group@[i].1),
    {
        let (sum, item) = pair;
        out.push((checksum_key(&sum), item));
    }
    out
}

/// Groups the files of one list by their checksums and keeps the groups of two
/// or more.
pub fn duplicates_by_checksum<T: Send>(group: Vec<(Checksum, T)>) -> (out: Vec<Vec<T>>)
    ensures
        partitions(rows(out@), by_bytes(group@), 2),
{
    let ghost pairs = by_bytes(group@);
    let keyed = with_keys(group);
    let out = groups_of_at_least(keyed, 2);
    proof {
        let rename = |bytes: Seq<u8>| key_of(bytes);
        assert(keyed@ =~= rekeyed(pairs, rename));
        assert(distinguishes(pairs, rename)) by {
            assert forall|i: int, j: int|
                0 <= i < pairs.len() && 0 <= j < pairs.len() && rename((#[trigger] pairs[i]).0)
                    == rename((#[trigger] pairs[j]).0) implies pairs[i].0 == pairs[j].0 by {
                lemma_key_of_injective(pairs[i].0, pairs[j].0);
            }
        }
        lemma_partitions_rekeyed(rows(out@), pairs, rename, 2);
    }
    out
}

/// Hash partition: within each group of files of one size, groups the files by
/// their checksums and keeps the groups of two or more; what the groups yield
/// comes out as one list.
pub fn hash_partition<T: Send>(tagged: Vec<Vec<(Checksum, T)>>) -> (out: Vec<Vec<T>>)
    ensures
        partitions(rows(out@), flat(tagged_rows(tagged@)), 2),
{
    let mut out: Vec<Vec<T>> = Vec::new();
    proof {
        let none = Seq::<(int, Seq<u8>)>::empty();
        assert(partitions_by(
            rows(out@),
            none,
            flat(tagged_rows(tagged@).take(0)),
            2,
        ));
    }
    for group in it: tagged.into_iter()
        invariant
            it.seq() == tagged@,
            partitions(rows(out@), flat(tagged_rows(tagged@).take(it.index() as int)), 2),
    {
        let ghost at = it.index() as int;
        let ghost before = rows(out@);
        let mut found = duplicates_by_checksum(group);
        let ghost added = rows(found@);
        proof {
            let all = tagged_rows(tagged@);
            lemma_partitions_extend(before, all.take(at), all[at], added, 2);
            assert(all.take(at).push(all[at]) =~= all.take(at + 1));
        }
        out.append(&mut found);
        assert(rows(out@) =~= before + added);
    }
    assert(tagged_rows(tagged@).take(tagged@.len() as int) =~= tagged_rows(tagged@));
    out
}

/// Finalize: where `sort` is set, each group's paths are sorted
/// lexicographically; otherwise the groups are left as they are.
pub fn finalize(groups: Vec<Vec<String>>, sort: bool) -> (out: Vec<Vec<String>>)
    ensures
        out@.len() == groups@.len(),
        forall|i: int|
            0 <= i < out@.len() ==> (#[trigger] out@[i])@.to_multiset()
                == groups@[i]@.to_multiset(),
        sort ==> forall|i: int| 0 <= i < out@.len() ==> sorted((#[trigger] out@[i])@),
        !sort ==> out == groups,
{
    if !sort {
        return groups;
    }
    let mut out: Vec<Vec<String>> = Vec::new();
    for group in it: groups.into_iter()
        invariant
            it.seq() == groups@,
            out@.len() == it.index(),
            forall|i: int|
                0 <= i < out@.len() ==> (#[trigger] out@[i])@.to_multiset()
                    == groups@[i]@.to_multiset(),
            forall|i: int| 0 <= i < out@.len() ==> sorted((#[trigger] out@[i])@),
    {
        out.push(sort_paths(group));
    }
    out
}

/// A file held in memory: its path and its content.
#[derive(Clone, Debug)]
pub struct FileImage {
    /// Where the file is.
    pub path: String,
    /// What the file holds.
    pub content: Vec<u8>,
}

/// Size of `file`, in bytes.
pub fn get_file_size(file: &FileImage) -> (size: u64)
    ensures
        size == file.content@.len(),
{
    file.content.len() as u64
}

/// What decides whether two files are duplicates: size and checksum.
pub open spec fn signature(file: FileImage) -> (u64, Seq<u8>) {
    (file.content@.len() as u64, sha512(file.content@))
}

/// The paths of the files, each keyed by the file's signature.
pub open spec fn signed(files: Seq<FileImage>) -> Seq<((u64, Seq<u8>), String)> {
    files.map_values(|f: FileImage| (signature(f), f.path))
}

/// The files, each with its size.
fn with_sizes(files: Vec<FileImage>) -> (sized: Vec<(u64, FileImage)>)
    ensures
        keyed_by(sized@, files@, |f: FileImage| f.content@.len() as u64, |f: FileImage| f),
{
    let mut sized: Vec<(u64, FileImage)> = Vec::new();
    for file in it: files.into_iter()
        invariant
            it.seq() == files@,
            sized@.len() == it.index(),
            forall|i: int|
                0 <= i < sized@.len() ==> #[trigger] sized@[i] == (
                    files@[i].content@.len() as u64,
                    files@[i],
                ),
    {
        let size = get_file_size(&file);
        sized.push((size, file));
    }
    sized
}

/// The paths of the files of one group, each with the checksum of the file.
fn with_checksums(group: Vec<FileImage>) -> (tagged: Vec<(Checksum, String)>)
    ensures
        keyed_by(
            by_bytes(tagged@),
            group@,
            |f: FileImage| sha512(f.content@),
            |f: FileImage| f.path,
        ),
{
    let mut tagged: Vec<(Checksum, String)> = Vec::new();
    for file in it: group.into_iter()
        invariant
            it.seq() == group@,
            tagged@.len() == it.index(),
            forall|i: int|
                0 <= i < tagged@.len() ==> (#[trigger] tagged@[i]).0@ == sha512(group@[i].content@)
                    && tagged@[i].1 == group@[i].path,
    {
        let sum = get_sha512_hash(file.content.as_slice());
        tagged.push((sum, file.path));
    }
    tagged
}

/// Groups the files by content: each group that comes out holds the paths of
/// two or more files of the same size and the same SHA-512 checksum, and every
/// file that has such a companion is in one of them. Only files whose size
/// another file shares are hashed. Where `sort` is set, each group's paths are
/// sorted lexicographically.
pub fn group_duplicate_files(sort: bool, files: Vec<FileImage>) -> (out: Vec<Vec<String>>)
    ensures
        partitions(rows(out@), signed(files@), 2),
        sort ==> forall|i: int| 0 <= i < out@.len() ==> sorted((#[trigger] out@[i])@),
{
    let ghost given = files@;
    let sized = with_sizes(files);
    let ghost sized_pairs = sized@;
    let candidates = size_partition(sized);
    let mut tagged: Vec<Vec<(Checksum, String)>> = Vec::new();
    for group in it: candidates.into_iter()
        invariant
            it.seq() == candidates@,
            tagged@.len() == it.index(),
            forall|c: int|
                0 <= c < tagged@.len() ==> keyed_by(
                    by_bytes((#[trigger] tagged@[c])@),
                    candidates@[c]@,
                    |f: FileImage| sha512(f.content@),
                    |f: FileImage| f.path,
                ),
    {
        tagged.push(with_checksums(group));
    }
    let ghost tagged_pairs = tagged_rows(tagged@);
    let groups = hash_partition(tagged);
    let ghost unsorted = rows(groups@);
    let out = finalize(groups, sort);
    proof {
        let first = |f: FileImage| f.content@.len() as u64;
        let second = |f: FileImage| sha512(f.content@);
        let item = |f: FileImage| f.path;
        lemma_two_stages(
            given,
            first,
            second,
            item,
            sized_pairs,
            rows(candidates@),
            tagged_pairs,
            unsorted,
            signed(given),
        );
        lemma_partitions_reordered(rows(out@), unsorted, signed(given), 2);
    }
    out
}

} // verus!
