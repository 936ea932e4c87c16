//! The digests the ledger addresses things by.

use vstd::prelude::*;

verus! {

/// The BLAKE3 digest of `data`.
pub uninterp spec fn blake3_digest(data: Seq<u8>) -> [u8; 32];

/// The bytes of the BLAKE3 digest of `data`.
pub open spec fn digest(data: Seq<u8>) -> Seq<u8> {
    blake3_digest(data)@
}

/// `blake3::hash`: the 32-byte digest of the whole input. The digest depends on
/// the input bytes alone.
#[verifier::external_body]
pub(crate) fn blake3_hash(data: &[u8]) -> (h: [u8; 32])
    ensures
        h == blake3_digest(data@),
{
    *blake3::hash(data).as_bytes()
}

/// The SHA-256 digest of `data`.
pub uninterp spec fn sha256_digest(data: Seq<u8>) -> [u8; 32];

/// `sha2::Sha256::digest`: the 32-byte digest of the whole input. The digest depends
/// on the input bytes alone.
#[verifier::external_body]
pub(crate) fn sha256_hash(data: &[u8]) -> (h: [u8; 32])
    ensures
        h == sha256_digest(data@),
{
    <sha2::Sha256 as sha2::Digest>::digest(data).into()
}

} // verus!
