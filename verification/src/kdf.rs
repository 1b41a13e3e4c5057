//! The two BLAKE3 modes everything else is built on.
//!
//! Both are treated as black boxes: each gets a name in specifications, and
//! the only thing claimed about it is that the executable call returns what
//! the name denotes.

use vstd::prelude::*;

verus! {

/// What BLAKE3 in key-derivation mode yields for a context string and some
/// key material.
pub uninterp spec fn derived_key(context: Seq<char>, material: Seq<u8>) -> Seq<u8>;

/// What BLAKE3 in keyed mode yields for a 32-byte key and an input.
pub uninterp spec fn keyed_digest(key: Seq<u8>, input: Seq<u8>) -> Seq<u8>;

/// `blake3::derive_key`. Trusted: the 32 bytes returned are a function of the
/// context and the key material alone, the one called [`derived_key`].
#[verifier::external_body]
pub(crate) fn derive_key(context: &str, material: &[u8]) -> (r: [u8; 32])
    ensures
        r@ == derived_key(context@, material@),
{
    blake3::derive_key(context, material)
}

/// `blake3::keyed_hash`. Trusted: the 32 bytes returned are a function of the
/// key and the input alone, the one called [`keyed_digest`].
#[verifier::external_body]
pub(crate) fn keyed_hash(key: &[u8; 32], input: &[u8]) -> (r: [u8; 32])
    ensures
        r@ == keyed_digest(key@, input@),
{
    blake3::keyed_hash(key, input).into()
}

/// The keyed digest as a string of exactly 32 bytes, which is what it is for
/// every key of 32 bytes.
pub open spec fn mac(key: Seq<u8>, input: Seq<u8>) -> Seq<u8> {
    Seq::new(32, |i: int| keyed_digest(key, input)[i])
}

/// The keyed digest of `input` under `key`.
pub fn mac_of(key: &[u8; 32], input: &[u8]) -> (r: [u8; 32])
    ensures
        r@ == mac(key@, input@),
{
    let r = keyed_hash(key, input);
    assert(r@ =~= mac(key@, input@));
    r
}

} // verus!
