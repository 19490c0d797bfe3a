//! SHA-256 digests (`sha2`) and their standard padded Base64 text (`base64ct`).

use base64ct::{Base64, Encoding};
use sha2::{Digest, Sha256};
use vstd::prelude::*;

verus! {

/// The SHA-256 digest of a byte sequence.
pub uninterp spec fn sha256(data: Seq<u8>) -> Seq<u8>;

/// The standard Base64 encoding, with `=` padding, of a byte sequence.
pub uninterp spec fn base64_encoding(data: Seq<u8>) -> Seq<char>;

/// `Sha256::digest`: the 32-byte SHA-256 digest of `data`.
#[verifier::external_body]
pub(crate) fn sha256_digest(data: &[u8]) -> (r: Vec<u8>)
    ensures
        r@ == sha256(data@),
        r@.len() == 32,
{
    Sha256::digest(data).to_vec()
}

/// `Base64::encode_string`: standard padded Base64, four characters for
/// each started group of three bytes.
#[verifier::external_body]
pub(crate) fn base64_encode(data: &[u8]) -> (r: String)
    requires
        data@.len() <= usize::MAX / 4,
    ensures
        r@ == base64_encoding(data@),
        r@.len() == 4 * ((data@.len() + 2) / 3),
{
    Base64::encode_string(data)
}

} // verus!
