use fdup::checksum::checksum_key;
use fdup::checksum::get_sha512_hash;
use fdup::checksum::ContentHasher;
use fdup::checksum::Progress;

fn hex(bytes: &[u8]) -> String {
    let mut out = String::new();
    for b in bytes {
        out.push_str(&format!("{:02x}", b));
    }
    out
}

#[test]
fn sha512_of_empty_content() {
    assert_eq!(
        hex(&get_sha512_hash(b"")),
        "cf83e1357eefb8bdf1542850d66d8007d620e4050b5715dc83f4a921d36ce9ce\
         47d0d13c5d85f2b0ff8318d2877eec2f63b931bd47417a81a538327af927da3e"
    );
}

#[test]
fn sha512_of_hello_world() {
    assert_eq!(
        hex(&get_sha512_hash(b"hello world")),
        "309ecc489c12d6eb4cc40f50c902f2b4d0ed77ee511a7c7a9bcd3ca86d4cd86f\
         989dd35bc5ff499670da34255b45b0cfd830e81f605dcf7dc5542e93ae9cd76f"
    );
}

#[test]
fn chunked_hashing_equals_streamed_hashing() {
    let content: Vec<u8> = (0..10_000u32).map(|i| (i % 251) as u8).collect();
    let mut hasher = ContentHasher::new();
    let mut done = None;
    let mut offset = 0;
    while done.is_none() {
        let size = std::cmp::min(37, content.len() - offset);
        let mut buffer = [0u8; 64];
        buffer[..size].copy_from_slice(&content[offset..offset + size]);
        match hasher.absorb(&buffer, size) {
            Progress::More(next) => {
                hasher = next;
                offset += size;
            }
            Progress::Done(sum) => {
                done = Some(sum);
                hasher = ContentHasher::new();
            }
        }
    }
    assert_eq!(done.unwrap(), get_sha512_hash(&content));
}

#[test]
fn an_empty_read_ends_the_content() {
    match ContentHasher::new().absorb(&[1, 2, 3], 0) {
        Progress::Done(sum) => assert_eq!(sum, get_sha512_hash(b"")),
        Progress::More(_) => panic!("a read of zero bytes is the end of the content"),
    }
}

#[test]
fn only_the_bytes_read_are_hashed() {
    let buffer = *b"hello worldXXXXX";
    let hasher = match ContentHasher::new().absorb(&buffer, 11) {
        Progress::More(hasher) => hasher,
        Progress::Done(_) => panic!("eleven bytes were read"),
    };
    match hasher.absorb(&buffer, 0) {
        Progress::Done(sum) => assert_eq!(sum, get_sha512_hash(b"hello world")),
        Progress::More(_) => panic!("a read of zero bytes is the end of the content"),
    }
}

#[test]
fn the_key_reads_sixteen_bytes_at_a_time() {
    let mut sum = [0u8; 64];
    sum[0] = 1;
    sum[17] = 2;
    sum[47] = 3;
    sum[48] = 4;
    assert_eq!(checksum_key(&sum), (1, 2 << 8, 3 << 120, 4));
}

#[test]
fn different_checksums_have_different_keys() {
    let a = get_sha512_hash(b"a");
    let b = get_sha512_hash(b"b");
    assert_ne!(a, b);
    assert_ne!(checksum_key(&a), checksum_key(&b));
    assert_eq!(checksum_key(&a), checksum_key(&get_sha512_hash(b"a")));
    let mut near = a;
    near[63] ^= 1;
    assert_ne!(checksum_key(&a), checksum_key(&near));
}
