//! Trusted bindings to the outside world: the cryptographic digest used for
//! method selectors, the base58check text form used for addresses, and lossy
//! UTF-8 recovery.  Each contract states no more than the callee's
//! documentation promises.

use vstd::prelude::*;
use sha3::Digest;

verus! {

/// The keccak-256 digest of a byte string: a pure function of the bytes,
/// named rather than spelled out.
pub uninterp spec fn keccak_of(b: Seq<u8>) -> Seq<u8>;

/// Relies on `sha3::Keccak256` (through the `Digest` trait): the digest is 32
/// bytes long and depends on the input bytes alone.
#[verifier::external_body]
pub fn keccak256(data: &[u8]) -> (r: Vec<u8>)
    ensures
        r@ == keccak_of(data@),
        r@.len() == 32,
{
    sha3::Keccak256::digest(data).to_vec()
}

/// The base58check rendering of a byte string (payload followed by a 4-byte
/// double-sha256 checksum): a pure function of the bytes.
pub uninterp spec fn b58check_of(b: Seq<u8>) -> Seq<char>;

/// Relies on `bs58::encode(..).with_check()`: the rendering depends on the
/// input bytes alone.
#[verifier::external_body]
pub fn b58check_string(data: &[u8]) -> (r: String)
    ensures
        r@ == b58check_of(data@),
{
    bs58::encode(data).with_check().into_string()
}

/// What `String::from_utf8_lossy` returns on arbitrary bytes.
pub uninterp spec fn utf8_lossy_of(b: Seq<u8>) -> Seq<char>;

/// Relies on `String::from_utf8_lossy`: a pure function of the bytes, and the
/// identity (under UTF-8 encoding) on valid input.
#[verifier::external_body]
pub fn utf8_lossy(data: &[u8]) -> (r: String)
    ensures
        r@ == utf8_lossy_of(data@),
        vstd::utf8::valid_utf8(data@) ==> vstd::utf8::encode_utf8(r@) == data@,
{
    String::from_utf8_lossy(data).into_owned()
}

} // verus!
