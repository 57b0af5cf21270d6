//! Content digests.

use crate::bytes;
use crate::codec;
use crate::index::ContentHash;
use vstd::prelude::*;

verus! {

/// The BLAKE3 digest of a byte string, 32 bytes.
pub uninterp spec fn blake3_of(bytes: Seq<u8>) -> Seq<u8>;

/// `blake3::hash`: the default BLAKE3 digest of the input, a function of its
/// bytes alone.
#[verifier::external_body]
fn blake3_digest(bytes: &[u8]) -> (h: [u8; 32])
    ensures
        h@ == blake3_of(bytes@),
{
    *blake3::hash(bytes).as_bytes()
}

/// The identity of a content: its BLAKE3 digest.
pub open spec fn digest(bytes: Seq<u8>) -> ContentHash {
    ContentHash(codec::array_of(blake3_of(bytes)))
}

/// The identity of the content holds its digest. Whatever hashes the content
/// ensures it.
pub open spec fn proper(bytes: Seq<u8>) -> bool {
    digest(bytes).0@ == blake3_of(bytes)
}

/// The identity of a content.
pub fn content_hash(bytes: &[u8]) -> (h: ContentHash)
    ensures
        h == digest(bytes@),
        h.0@ == blake3_of(bytes@),
        proper(bytes@),
{
    let h = blake3_digest(bytes);
    proof {
        codec::array_of_view(h);
    }
    ContentHash(h)
}

/// The SHA-256 digest of a byte string, 32 bytes.
pub uninterp spec fn sha256_of(bytes: Seq<u8>) -> Seq<u8>;

/// `sha2::Sha256::digest`: the SHA-256 digest of the input, a function of its
/// bytes alone.
#[verifier::external_body]
fn sha256_digest(bytes: &[u8]) -> (h: [u8; 32])
    ensures
        h@ == sha256_of(bytes@),
{
    <sha2::Sha256 as sha2::Digest>::digest(bytes).into()
}

/// The SHA-256 digest of a byte string, in lower-case hexadecimal.
pub fn hex_sha256(bytes: &[u8]) -> (s: String)
    ensures
        s@ == bytes::hex_text(sha256_of(bytes@)),
{
    let h = sha256_digest(bytes);
    bytes::hex_of(h.as_slice())
}

} // verus!
