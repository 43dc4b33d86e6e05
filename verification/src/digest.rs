//! The digest that commits to a store state.
//!
//! The root hash of a store is the SHA-256 digest of the store's canonical
//! snapshot encoding. The digest itself is computed by the `sha2` crate; its
//! value is named, not specified, and everything proved about the store treats
//! it as an opaque function of the input bytes.

use vstd::prelude::*;

verus! {

/// Width in bytes of the digest that identifies a committed store state.
pub const DIGEST_LEN: usize = 32;

/// The SHA-256 digest of a byte sequence, as a pure function of the bytes.
pub uninterp spec fn sha256_of(data: Seq<u8>) -> Seq<u8>;

/// Relies on `sha2::Sha256` through `digest::Digest::digest`: the 32-byte
/// SHA-256 digest of `data`, a deterministic function of the bytes alone.
#[verifier::external_body]
pub(crate) fn sha256(data: &Vec<u8>) -> (r: Vec<u8>)
    ensures
        r@ == sha256_of(data@),
        r@.len() == DIGEST_LEN,
{
    let out = <sha2::Sha256 as sha2::Digest>::digest(data.as_slice());
    out.as_slice().to_vec()
}

} // verus!
