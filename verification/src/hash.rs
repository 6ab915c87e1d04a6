//! Content hashes.

use vstd::prelude::*;
use crate::order::{compare_bytes, Order};

verus! {

/// The SHA-1 digest of a byte string, as the `sha1` crate computes it.
pub uninterp spec fn sha1_of(data: Seq<u8>) -> Seq<u8>;

/// The MD5 digest of a byte string, as the `md-5` crate computes it.
pub uninterp spec fn md5_of(data: Seq<u8>) -> Seq<u8>;

/// Calls `Sha1::digest` of the `sha1` crate. The digest is a function of the
/// bytes alone; nothing else is claimed of it.
#[verifier::external_body]
fn sha1_digest(data: &[u8]) -> (r: Vec<u8>)
    ensures
        r@ == sha1_of(data@),
{
    <sha1::Sha1 as sha1::Digest>::digest(data).to_vec()
}

/// Calls `Md5::digest` of the `md-5` crate. The digest is a function of the
/// bytes alone; nothing else is claimed of it.
#[verifier::external_body]
fn md5_digest(data: &[u8]) -> (r: Vec<u8>)
    ensures
        r@ == md5_of(data@),
{
    <md5::Md5 as md5::Digest>::digest(data).to_vec()
}

/// The SHA-1 digest of `data`.
pub fn hash_all(data: &[u8]) -> (r: Vec<u8>)
    ensures
        r@ == sha1_of(data@),
{
    sha1_digest(data)
}

/// Whether two digests are the same.
pub fn same_digest(a: &Vec<u8>, b: &Vec<u8>) -> (r: bool)
    ensures
        r == (a@ == b@),
{
    match compare_bytes(a.as_slice(), b.as_slice()) {
        Order::Equal => true,
        _ => false,
    }
}

/// Whether the plaintext copy of a file and the decrypted content of its
/// encrypted copy have the same MD5 digest.
pub fn check_coincide(plain: &[u8], decrypted: &[u8]) -> (r: bool)
    ensures
        r == (md5_of(plain@) == md5_of(decrypted@)),
{
    let plain_hash = md5_digest(plain);
    let gpg_hash = md5_digest(decrypted);
    same_digest(&gpg_hash, &plain_hash)
}

} // verus!
