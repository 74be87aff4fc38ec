//! Content hashing: the BLAKE3 digest of a file's bytes, in one call or fed in pieces.

use vstd::prelude::*;

verus! {

/// Number of characters in a content hash: 32 digest bytes, two hexadecimal digits each.
pub const CONTENT_HASH_LEN: usize = 64;

/// Size of the buffer through which a file is streamed into a [`ContentHasher`].
pub const READ_BUFFER_LEN: usize = 8192;

/// `blake3::Hasher`, the incremental hash state. Nothing of its inside is visible here.
#[verifier::external_type_specification]
#[verifier::external_body]
pub struct ExHasher(blake3::Hasher);

/// The BLAKE3 digest of `input` in the default mode, written as lowercase hexadecimal.
pub uninterp spec fn blake3_hex(input: Seq<u8>) -> Seq<char>;

/// The bytes that have been written into a hasher since it was made, in order.
pub uninterp spec fn hasher_input(hasher: blake3::Hasher) -> Seq<u8>;

/// `blake3::hash`, followed by `Hash::to_hex`: the digest of the whole input as text.
/// Trusted: the text depends on the bytes alone and `to_hex` always writes 64 characters.
#[verifier::external_body]
fn blake3_hash_hex(input: &[u8]) -> (hex: String)
    ensures
        hex@ == blake3_hex(input@),
        hex@.len() == CONTENT_HASH_LEN,
{
    blake3::hash(input).to_hex().to_string()
}

/// `blake3::Hasher::new`: a hasher for the default mode that has seen no input.
pub assume_specification[ blake3::Hasher::new ]() -> (hasher: blake3::Hasher)
    ensures
        hasher_input(hasher) == Seq::<u8>::empty(),
;

/// `blake3::Hasher::update`: appends `input` to what the hasher has seen.
#[verifier::external_body]
fn blake3_update(hasher: &mut blake3::Hasher, input: &[u8])
    ensures
        hasher_input(*final(hasher)) == hasher_input(*old(hasher)) + input@,
{
    hasher.update(input);
}

/// `blake3::Hasher::finalize`, followed by `Hash::to_hex`. Trusted: the result is the
/// digest that `blake3::hash` gives for all the input written so far, as the crate's
/// documentation states for a hasher made by `Hasher::new`, the only way one is made here.
#[verifier::external_body]
fn blake3_finalize_hex(hasher: &blake3::Hasher) -> (hex: String)
    ensures
        hex@ == blake3_hex(hasher_input(*hasher)),
        hex@.len() == CONTENT_HASH_LEN,
{
    hasher.finalize().to_hex().to_string()
}

/// The content hash of a byte string: what identifies a file's contents.
pub open spec fn content_hash_of(bytes: Seq<u8>) -> Seq<char> {
    blake3_hex(bytes)
}

/// Hashes a whole file held in memory.
pub fn content_hash(bytes: &[u8]) -> (hex: String)
    ensures
        hex@ == content_hash_of(bytes@),
        hex@.len() == CONTENT_HASH_LEN,
{
    blake3_hash_hex(bytes)
}

/// A content hash in the making: bytes are fed in as they are read, `finalize` gives
/// the hash of everything fed so far.
pub struct ContentHasher {
    state: blake3::Hasher,
}

impl ContentHasher {
    /// Everything fed to this hasher, in order.
    pub closed spec fn fed(&self) -> Seq<u8> {
        hasher_input(self.state)
    }

    /// A hasher that has been fed nothing.
    pub fn new() -> (hasher: Self)
        ensures
            hasher.fed() == Seq::<u8>::empty(),
    {
        ContentHasher { state: blake3::Hasher::new() }
    }

    /// Feeds the next piece of the file.
    pub fn update(&mut self, chunk: &[u8])
        ensures
            final(self).fed() == old(self).fed() + chunk@,
    {
        blake3_update(&mut self.state, chunk);
    }

    /// The content hash of everything fed so far. The hasher can be fed further.
    pub fn finalize(&self) -> (hex: String)
        ensures
            hex@ == content_hash_of(self.fed()),
            hex@.len() == CONTENT_HASH_LEN,
    {
        blake3_finalize_hex(&self.state)
    }
}

/// Files with identical bytes have identical content hashes.
pub proof fn lemma_identical_bytes_same_hash(a: Seq<u8>, b: Seq<u8>)
    requires
        a == b,
    ensures
        content_hash_of(a) == content_hash_of(b),
{
}

} // verus!
