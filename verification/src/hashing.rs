//! Content hashes: SHA-256 of a file's bytes, written as lowercase hex.

use sha2::{Digest, Sha256};
use vstd::prelude::*;

verus! {

/// The SHA-256 digest of a byte string.
pub uninterp spec fn sha256_of(data: Seq<u8>) -> Seq<u8>;

/// Calls `sha2::Sha256::digest` (the `Digest` trait of the `digest` crate):
/// the SHA-256 digest of `data`, which is 32 bytes long.
#[verifier::external_body]
fn sha256(data: &[u8]) -> (r: Vec<u8>)
    ensures
        r@ == sha256_of(data@),
        r@.len() == 32,
{
    Sha256::digest(data).to_vec()
}

/// The sixteen hex digits, lowercase.
pub open spec fn hex_digits() -> Seq<char> {
    seq!['0', '1', '2', '3', '4', '5', '6', '7', '8', '9', 'a', 'b', 'c', 'd', 'e', 'f']
}

/// Two lowercase hex digits for each byte, the high half first.
pub open spec fn hex_text(bytes: Seq<u8>) -> Seq<char> {
    Seq::new(
        2 * bytes.len(),
        |i: int|
            if i % 2 == 0 {
                hex_digits()[bytes[i / 2] as int / 16]
            } else {
                hex_digits()[bytes[i / 2] as int % 16]
            },
    )
}

/// Calls `hex::encode`, which writes each byte as two lowercase hex digits.
#[verifier::external_body]
fn hex_encode(bytes: &[u8]) -> (r: String)
    ensures
        r@ == hex_text(bytes@),
{
    hex::encode(bytes)
}

/// The hash recorded for a file of the given content.
pub open spec fn content_hash(data: Seq<u8>) -> Seq<char> {
    hex_text(sha256_of(data))
}

/// The hash recorded for a file: that of its content, or the empty string
/// where the content could not be read.
pub open spec fn recorded_hash(content: Option<Seq<u8>>) -> Seq<char> {
    match content {
        Some(data) => content_hash(data),
        None => Seq::empty(),
    }
}

/// The view of an optional byte slice.
pub open spec fn opt_bytes(content: Option<&[u8]>) -> Option<Seq<u8>> {
    match content {
        Some(data) => Some(data@),
        None => None,
    }
}

/// A digest written as lowercase hex.
pub fn digest_text(digest: &[u8]) -> (r: String)
    ensures
        r@ == hex_text(digest@),
        r@.len() == 2 * digest@.len(),
{
    hex_encode(digest)
}

/// The hash to record for a file, from its content if it could be read.
pub fn hash_file(content: Option<&[u8]>) -> (r: String)
    ensures
        r@ == recorded_hash(opt_bytes(content)),
        content is Some ==> r@.len() == 64,
        content is None ==> r@.len() == 0,
{
    match content {
        Some(data) => {
            let digest = sha256(data);
            digest_text(digest.as_slice())
        },
        None => String::new(),
    }
}

} // verus!
