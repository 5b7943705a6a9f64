//! A content-hashing utility over raw definition text, for cache keys: the
//! SHA-256 digest of the text, rendered as lowercase hexadecimal.
use vstd::prelude::*;

use vstd::string::StringSliceAdditionalSpecFns;

verus! {

/// The SHA-256 digest of a byte sequence. The digest depends on the bytes
/// alone.
pub uninterp spec fn sha256_of(bytes: Seq<u8>) -> Seq<u8>;

/// The lowercase hexadecimal digit for a value below sixteen.
pub open spec fn hex_digit(d: int) -> char {
    if d < 10 {
        ((48 + d) as u8) as char
    } else {
        ((87 + d) as u8) as char
    }
}

/// The lowercase hexadecimal rendering of a byte sequence: two digits per
/// byte, high nibble first.
pub open spec fn hex_of(bytes: Seq<u8>) -> Seq<char>
    decreases bytes.len(),
{
    if bytes.len() == 0 {
        Seq::empty()
    } else {
        seq![hex_digit((bytes[0] / 16) as int), hex_digit((bytes[0] % 16) as int)] + hex_of(
            bytes.skip(1),
        )
    }
}

/// Relies on `Sha256::digest` of the `sha2` crate: the digest is a function
/// of the input bytes alone, and is 32 bytes long.
#[verifier::external_body]
fn sha256_digest(bytes: &[u8]) -> (r: Vec<u8>)
    ensures
        r@ == sha256_of(bytes@),
        r@.len() == 32,
{
    <sha2::Sha256 as sha2::Digest>::digest(bytes).to_vec()
}

/// Relies on `hex::encode` of the `hex` crate: each input byte becomes two
/// lowercase hexadecimal digits, high nibble first.
#[verifier::external_body]
fn hex_encode(bytes: &Vec<u8>) -> (r: String)
    ensures
        r@ == hex_of(bytes@),
{
    hex::encode(bytes)
}

/// The hexadecimal rendering is two digits per byte.
pub proof fn lemma_hex_of_len(bytes: Seq<u8>)
    ensures
        hex_of(bytes).len() == 2 * bytes.len(),
    decreases bytes.len(),
{
    if bytes.len() > 0 {
        lemma_hex_of_len(bytes.skip(1));
    }
}

/// The cache key of raw definition text: the lowercase hexadecimal SHA-256
/// digest of its bytes, 64 digits long.
pub fn table_hash(raw: &str) -> (r: String)
    ensures
        r@ == hex_of(sha256_of(raw.spec_bytes())),
        r@.len() == 64,
{
    let digest = sha256_digest(raw.as_bytes());
    proof {
        lemma_hex_of_len(digest@);
    }
    hex_encode(&digest)
}

} // verus!
