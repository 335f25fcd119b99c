//! Content hashes: BLAKE3 digests in lowercase hexadecimal, over the first
//! 64 KiB of a file and over all of it.

use vstd::prelude::*;
use vstd::slice::slice_subrange;

verus! {

/// How many bytes the fast hash reads at most.
pub const FAST_HASH_BYTES: usize = 65536;

/// `blake3::Hasher`, of which only what it has taken in is told.
#[verifier::external_type_specification]
#[verifier::external_body]
pub struct ExHasher(blake3::Hasher);

/// The BLAKE3 digest of `data`, as `blake3::hash` computes it and
/// `Hash::to_hex` writes it.
pub uninterp spec fn blake3_hex(data: Seq<u8>) -> Seq<char>;

/// The bytes that a `blake3::Hasher` has taken in since it was made.
pub uninterp spec fn hasher_input(hasher: blake3::Hasher) -> Seq<u8>;

/// A digit of lowercase hexadecimal.
pub open spec fn is_hex_digit(c: char) -> bool {
    ('0' <= c && c <= '9') || ('a' <= c && c <= 'f')
}

/// Sixty-four digits of lowercase hexadecimal.
pub open spec fn is_digest(text: Seq<char>) -> bool {
    text.len() == 64 && forall|k: int| 0 <= k < text.len() ==> is_hex_digit(#[trigger] text[k])
}

/// `blake3::hash` followed by `Hash::to_hex`: the digest of the bytes, which
/// depends on the bytes alone and is written as 64 digits of lowercase
/// hexadecimal.
#[verifier::external_body]
fn digest_hex(data: &[u8]) -> (digest: String)
    ensures
        digest@ == blake3_hex(data@),
        is_digest(digest@),
{
    blake3::hash(data).to_hex().to_string()
}

/// `blake3::Hasher::new`: a hasher that has taken in nothing.
#[verifier::external_body]
fn hasher_new() -> (hasher: blake3::Hasher)
    ensures
        hasher_input(hasher) == Seq::<u8>::empty(),
{
    blake3::Hasher::new()
}

/// `blake3::Hasher::update`: the hasher takes in `data` after what it has.
#[verifier::external_body]
fn hasher_update(hasher: &mut blake3::Hasher, data: &[u8])
    ensures
        hasher_input(*final(hasher)) == hasher_input(*old(hasher)) + data@,
{
    hasher.update(data);
}

/// `blake3::Hasher::finalize` followed by `Hash::to_hex`: the digest of all
/// that the hasher has taken in, the same as `blake3::hash` gives for those
/// bytes at once.
#[verifier::external_body]
fn hasher_finalize_hex(hasher: &blake3::Hasher) -> (digest: String)
    ensures
        digest@ == blake3_hex(hasher_input(*hasher)),
        is_digest(digest@),
{
    hasher.finalize().to_hex().to_string()
}

/// What the fast hash reads of a file: its first `FAST_HASH_BYTES` bytes, or
/// all of it where it is shorter.
pub open spec fn fast_prefix(data: Seq<u8>) -> Seq<u8> {
    if data.len() <= FAST_HASH_BYTES {
        data
    } else {
        data.take(FAST_HASH_BYTES as int)
    }
}

/// The chunks one after the other.
pub open spec fn joined(chunks: Seq<Vec<u8>>) -> Seq<u8> {
    chunks.map_values(|c: Vec<u8>| c@).flatten()
}

/// The fast hash of a file whose contents begin with `data`: the digest of
/// the first 64 KiB. `data` holds the whole file or at least its first 64 KiB.
pub fn fast_hash(data: &[u8]) -> (digest: String)
    ensures
        digest@ == blake3_hex(fast_prefix(data@)),
        is_digest(digest@),
{
    if data.len() <= FAST_HASH_BYTES {
        digest_hex(data)
    } else {
        let head = slice_subrange(data, 0, FAST_HASH_BYTES);
        digest_hex(head)
    }
}

/// A full hash in the making: file contents go in chunk by chunk.
pub struct FullHasher {
    inner: blake3::Hasher,
}

impl View for FullHasher {
    type V = Seq<u8>;

    /// The bytes taken in so far.
    closed spec fn view(&self) -> Seq<u8> {
        hasher_input(self.inner)
    }
}

impl FullHasher {
    /// A hasher that has taken in nothing.
    pub fn new() -> (hasher: FullHasher)
        ensures
            hasher@ == Seq::<u8>::empty(),
    {
        FullHasher { inner: hasher_new() }
    }

    /// Takes in the next chunk of the file.
    pub fn update(&mut self, chunk: &[u8])
        ensures
            final(self)@ == old(self)@ + chunk@,
    {
        hasher_update(&mut self.inner, chunk);
    }

    /// The digest of everything taken in.
    pub fn finish(&self) -> (digest: String)
        ensures
            digest@ == blake3_hex(self@),
            is_digest(digest@),
    {
        hasher_finalize_hex(&self.inner)
    }
}

/// The full hash of a file given as its chunks in order: the digest of the
/// whole contents, however they were cut into chunks.
pub fn full_hash(chunks: &Vec<Vec<u8>>) -> (digest: String)
    ensures
        digest@ == blake3_hex(joined(chunks@)),
        is_digest(digest@),
{
    let mut hasher = FullHasher::new();
    let mut i: usize = 0;
    let ghost parts = chunks@.map_values(|c: Vec<u8>| c@);
    while i < chunks.len()
        invariant
            i <= chunks.len(),
            parts == chunks@.map_values(|c: Vec<u8>| c@),
            hasher@ == parts.take(i as int).flatten(),
        decreases chunks.len() - i,
    {
        proof {
            parts.lemma_take_succ_push(i as int);
            parts.take(i as int).lemma_flatten_push(parts[i as int]);
        }
        hasher.update(chunks[i].as_slice());
        i += 1;
    }
    proof {
        assert(parts.take(i as int) =~= parts);
    }
    hasher.finish()
}

/// A file of at most 64 KiB has the same fast and full hash.
pub proof fn law_small_file_hashes_agree(data: Seq<u8>)
    requires
        data.len() <= FAST_HASH_BYTES,
    ensures
        blake3_hex(fast_prefix(data)) == blake3_hex(data),
{
}

} // verus!
