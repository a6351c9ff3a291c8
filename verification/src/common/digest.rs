//! BLAKE3 digests.
use vstd::prelude::*;

verus! {

/// The 32-byte BLAKE3 hash of `data`.
pub uninterp spec fn blake3_digest(data: Seq<u8>) -> Seq<u8>;

/// `blake3::hash`: the result is the BLAKE3 hash of the bytes, named
/// `blake3_digest`; what the hash function computes is not stated.
#[verifier::external_body]
pub(crate) fn blake3_hash(data: &[u8]) -> (hash: [u8; 32])
    ensures
        hash@ == blake3_digest(data@),
{
    blake3::hash(data).into()
}

/// The state of an incremental BLAKE3 hash.
#[verifier::external_type_specification]
#[verifier::external_body]
pub struct ExHasher(blake3::Hasher);

/// The bytes that an incremental hash has collected.
pub uninterp spec fn collected(hasher: blake3::Hasher) -> Seq<u8>;

/// `blake3::Hasher::new`: nothing is collected yet.
#[verifier::external_body]
fn hasher_new() -> (hasher: blake3::Hasher)
    ensures
        collected(hasher) == Seq::<u8>::empty(),
{
    blake3::Hasher::new()
}

/// `blake3::Hasher::update`: the bytes are added to those collected.
#[verifier::external_body]
fn hasher_update(hasher: &mut blake3::Hasher, data: &[u8])
    ensures
        collected(*final(hasher)) == collected(*old(hasher)) + data@,
{
    hasher.update(data);
}

/// `blake3::Hasher::finalize`: the hash of the bytes collected, the same as
/// `blake3::hash` gives of them.
#[verifier::external_body]
fn hasher_finalize(hasher: &blake3::Hasher) -> (hash: [u8; 32])
    ensures
        hash@ == blake3_digest(collected(*hasher)),
{
    hasher.finalize().into()
}

/// The hash of a file that is read or written piece by piece.
pub struct FileHasher {
    hasher: blake3::Hasher,
}

impl FileHasher {
    /// The bytes so far.
    pub closed spec fn bytes(self) -> Seq<u8> {
        collected(self.hasher)
    }

    /// No bytes yet.
    pub fn new() -> (h: Self)
        ensures
            h.bytes() == Seq::<u8>::empty(),
    {
        FileHasher { hasher: hasher_new() }
    }

    /// Adds bytes.
    pub fn update(&mut self, data: &[u8])
        ensures
            final(self).bytes() == old(self).bytes() + data@,
    {
        hasher_update(&mut self.hasher, data)
    }

    /// The hash of all bytes.
    pub fn finish(&self) -> (hash: [u8; 32])
        ensures
            hash@ == blake3_digest(self.bytes()),
    {
        hasher_finalize(&self.hasher)
    }
}

} // verus!
