use sha2::Digest;
use sha2::Sha512;
use vstd::bytes::lemma_auto_spec_u128_to_from_le_bytes;
use vstd::bytes::spec_u128_from_le_bytes;
use vstd::bytes::spec_u128_to_le_bytes;
use vstd::bytes::u128_from_le_bytes;
use vstd::prelude::*;

verus! {

/// How many bytes of content go into the hasher at a time.
pub const CHUNK_SIZE: usize = 4096;

/// A SHA-512 checksum: 64 bytes.
pub type Checksum = [u8; 64];

/// A checksum as four integers, for use as a key.
pub type ChecksumKey = (u128, u128, u128, u128);

/// `sha2::Sha512`, an incremental SHA-512 computation, carried as it is: all
/// that is known of one is what it has `absorbed`.
#[verifier::external_type_specification]
#[verifier::external_body]
pub struct ExSha512(Sha512);

/// The SHA-512 digest of a byte string, as `sha2::Sha512` computes it.
pub uninterp spec fn sha512(data: Seq<u8>) -> Seq<u8>;

/// The bytes that a hasher has taken in so far, in order.
pub uninterp spec fn absorbed(hasher: Sha512) -> Seq<u8>;

/// `Digest::new` of `sha2::Sha512`: a hasher that has taken in nothing yet.
#[verifier::external_body]
fn hasher_new() -> (hasher: Sha512)
    ensures
        absorbed(hasher) == Seq::<u8>::empty(),
{
    Sha512::new()
}

/// `Digest::update` of `sha2::Sha512`: the hasher takes in `chunk` after what
/// it already has.
#[verifier::external_body]
fn hasher_update(hasher: &mut Sha512, chunk: &[u8])
    ensures
        absorbed(*final(hasher)) == absorbed(*old(hasher)) + chunk@,
{
    hasher.update(chunk)
}

/// `Digest::finalize` of `sha2::Sha512`: the SHA-512 digest of all that the
/// hasher has taken in.
#[verifier::external_body]
fn hasher_finalize(hasher: Sha512) -> (sum: Checksum)
    ensures
        sum@ == sha512(absorbed(hasher)),
{
    hasher.finalize().into()
}

/// The checksum computation over the content of one file, as far as the
/// content has been read.
pub struct ContentHasher {
    state: Sha512,
}

/// Where a checksum computation stands after one read.
pub enum Progress {
    /// There may be more content: go on reading.
    More(ContentHasher),
    /// The content has ended; this is its checksum.
    Done(Checksum),
}

impl View for ContentHasher {
    type V = Seq<u8>;

    /// The content read so far.
    closed spec fn view(&self) -> Seq<u8> {
        absorbed(self.state)
    }
}

impl ContentHasher {
    /// A computation that has seen no content yet.
    pub fn new() -> (hasher: ContentHasher)
        ensures
            hasher@ == Seq::<u8>::empty(),
    {
        ContentHasher { state: hasher_new() }
    }

    /// Takes the outcome of one read into account: `size` bytes have been read
    /// into the front of `buffer`. A read of zero bytes marks the end of the
    /// content and yields the checksum; any other read feeds the hasher.
    pub fn absorb(self, buffer: &[u8], size: usize) -> (next: Progress)
        requires
            size <= buffer@.len(),
        ensures
            match next {
                Progress::Done(sum) => size == 0 && sum@ == sha512(self@),
                Progress::More(hasher) => size != 0 && hasher@ == self@ + buffer@.take(
                    size as int,
                ),
            },
    {
        let mut state = self.state;
        if size == 0 {
            Progress::Done(hasher_finalize(state))
        } else {
            hasher_update(&mut state, &buffer[0..size]);
            Progress::More(ContentHasher { state })
        }
    }
}

/// SHA-512 checksum of `content`, which is fed to the hasher `CHUNK_SIZE`
/// bytes at a time, to its end.
pub fn get_sha512_hash(content: &[u8]) -> (sum: Checksum)
    ensures
        sum@ == sha512(content@),
{
    let mut hasher = ContentHasher::new();
    let mut offset: usize = 0;
    loop
        invariant
            offset <= content@.len(),
            hasher@ == content@.take(offset as int),
        decreases content@.len() - offset,
    {
        let remaining = content.len() - offset;
        let size = if remaining < CHUNK_SIZE {
            remaining
        } else {
            CHUNK_SIZE
        };
        let chunk = &content[offset..offset + size];
        match hasher.absorb(chunk, size) {
            Progress::Done(sum) => {
                proof {
                    assert(content@.take(offset as int) =~= content@);
                }
                return sum;
            },
            Progress::More(next) => {
                hasher = next;
                offset = offset + size;
            },
        }
    }
}

/// The four integers that stand for the 64 bytes `sum`: each is 16 of the
/// bytes, read as a little-endian number.
pub open spec fn key_of(sum: Seq<u8>) -> ChecksumKey {
    (
        spec_u128_from_le_bytes(sum.subrange(0, 16)),
        spec_u128_from_le_bytes(sum.subrange(16, 32)),
        spec_u128_from_le_bytes(sum.subrange(32, 48)),
        spec_u128_from_le_bytes(sum.subrange(48, 64)),
    )
}

/// The key under which files with the checksum `sum` are grouped.
pub fn checksum_key(sum: &Checksum) -> (key: ChecksumKey)
    ensures
        key == key_of(sum@),
{
    let bytes = sum.as_slice();
    (
        u128_from_le_bytes(&bytes[0..16]),
        u128_from_le_bytes(&bytes[16..32]),
        u128_from_le_bytes(&bytes[32..48]),
        u128_from_le_bytes(&bytes[48..64]),
    )
}

/// Two blocks of 16 bytes that read as the same number are the same bytes.
proof fn lemma_same_block(a: Seq<u8>, b: Seq<u8>, lo: int)
    requires
        0 <= lo,
        lo + 16 <= a.len(),
        lo + 16 <= b.len(),
        spec_u128_from_le_bytes(a.subrange(lo, lo + 16)) == spec_u128_from_le_bytes(
            b.subrange(lo, lo + 16),
        ),
    ensures
        a.subrange(lo, lo + 16) == b.subrange(lo, lo + 16),
{
    lemma_auto_spec_u128_to_from_le_bytes();
    let x = a.subrange(lo, lo + 16);
    assert(spec_u128_to_le_bytes(spec_u128_from_le_bytes(x)) == x);
}

/// Different checksums have different keys.
pub proof fn lemma_key_of_injective(a: Seq<u8>, b: Seq<u8>)
    requires
        a.len() == 64,
        b.len() == 64,
        key_of(a) == key_of(b),
    ensures
        a == b,
{
    lemma_same_block(a, b, 0);
    lemma_same_block(a, b, 16);
    lemma_same_block(a, b, 32);
    lemma_same_block(a, b, 48);
    assert forall|i: int| 0 <= i < 64 implies a[i] == b[i] by {
        let lo = (i / 16) * 16;
        assert(a.subrange(lo, lo + 16)[i - lo] == a[i]);
    }
}

} // verus!
