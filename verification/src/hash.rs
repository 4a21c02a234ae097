//! Content addressing helpers.
//!
//! Every hash beholder stores is a function of bytes alone, so a stored result
//! validates identically on any machine and in any checkout location.

use crate::text::{ascii_bytes, decimal, hex_lower, lemma_hex_lower_len, push_decimal_bytes, to_hex_lower};
use sha2::Digest;
use vstd::prelude::*;

verus! {

/// The SHA-256 digest of a byte sequence.
pub uninterp spec fn sha256(bytes: Seq<u8>) -> Seq<u8>;

/// Calls `sha2::Sha256::digest` and copies the digest out.
///
/// Trusted: the result is the value `sha256` names for these bytes, and it is
/// 32 bytes long (the digest's `OutputSize` is `U32`). Nothing else about the
/// digest is claimed.
#[verifier::external_body]
fn sha256_digest(bytes: &[u8]) -> (r: Vec<u8>)
    ensures
        r@ == sha256(bytes@),
        r@.len() == 32,
{
    sha2::Sha256::digest(bytes).to_vec()
}

/// Lowercase hex SHA-256 of the given bytes.
pub fn hex_sha256(bytes: &[u8]) -> (r: String)
    ensures
        r@ == hex_lower(sha256(bytes@)),
        r@.len() == 64,
{
    let digest = sha256_digest(bytes);
    proof {
        lemma_hex_lower_len(digest@);
    }
    to_hex_lower(digest.as_slice())
}

/// Git's blob framing of `len` bytes: `blob <len>` and a NUL byte.
pub open spec fn blob_header(len: nat) -> Seq<u8> {
    seq![98u8, 108u8, 111u8, 98u8, 32u8] + ascii_bytes(decimal(len)) + seq![0u8]
}

/// Content address of a file, as lowercase hex.
///
/// This is git's blob framing, `blob <len>\0` followed by the contents,
/// under SHA-256, so the value is a function of the bytes alone.
pub fn content_hash(bytes: &[u8]) -> (r: String)
    ensures
        r@ == hex_lower(sha256(blob_header(bytes@.len()) + bytes@)),
        r@.len() == 64,
{
    let mut framed: Vec<u8> = Vec::new();
    framed.push(98u8);
    framed.push(108u8);
    framed.push(111u8);
    framed.push(98u8);
    framed.push(32u8);
    push_decimal_bytes(&mut framed, bytes.len());
    framed.push(0u8);
    let n = bytes.len();
    let ghost header = framed@;
    assert(header =~= blob_header(bytes@.len()));
    let mut i: usize = 0;
    while i < n
        invariant
            i <= n,
            n == bytes@.len(),
            framed@ == header + bytes@.take(i as int),
        decreases n - i,
    {
        framed.push(bytes[i]);
        assert(bytes@.take(i + 1) =~= bytes@.take(i as int).push(bytes@[i as int]));
        i = i + 1;
    }
    assert(bytes@.take(n as int) =~= bytes@);
    hex_sha256(framed.as_slice())
}

} // verus!
