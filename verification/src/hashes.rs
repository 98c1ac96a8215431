//! Cryptographic digests and random nonces.
//!
//! The hash algorithms themselves come from the `bitcoin_hashes` crate; each
//! digest is named abstractly as a function of the input bytes alone.

use vstd::prelude::*;

verus! {

/// The SHA-256 digest of a byte sequence.
pub uninterp spec fn sha256_of(input: Seq<u8>) -> Seq<u8>;

/// The SHA-1 digest of a byte sequence.
pub uninterp spec fn sha1_of(input: Seq<u8>) -> Seq<u8>;

/// The RIPEMD-160 digest of a byte sequence.
pub uninterp spec fn ripemd160_of(input: Seq<u8>) -> Seq<u8>;

/// Relies on `bitcoin_hashes::sha256::Hash::hash`: a 32-byte digest that
/// depends on the input bytes alone.
#[verifier::external_body]
pub fn sha256(input: &Vec<u8>) -> (r: Vec<u8>)
    ensures
        r@ == sha256_of(input@),
        r@.len() == 32,
{
    bitcoin_hashes::sha256::Hash::hash(input.as_slice()).to_byte_array().to_vec()
}

/// Relies on `bitcoin_hashes::sha1::Hash::hash`: a 20-byte digest that
/// depends on the input bytes alone.
#[verifier::external_body]
pub fn sha1(input: &Vec<u8>) -> (r: Vec<u8>)
    ensures
        r@ == sha1_of(input@),
        r@.len() == 20,
{
    bitcoin_hashes::sha1::Hash::hash(input.as_slice()).to_byte_array().to_vec()
}

/// Relies on `bitcoin_hashes::ripemd160::Hash::hash`: a 20-byte digest that
/// depends on the input bytes alone.
#[verifier::external_body]
pub fn ripemd160(input: &Vec<u8>) -> (r: Vec<u8>)
    ensures
        r@ == ripemd160_of(input@),
        r@.len() == 20,
{
    bitcoin_hashes::ripemd160::Hash::hash(input.as_slice()).to_byte_array().to_vec()
}

/// Relies on `rand::random`: nothing is promised of the byte drawn.
#[verifier::external_body]
fn random_byte() -> u8 {
    rand::random::<u8>()
}

/// Draws the 16 random bytes that salt one digest before batching.
pub fn random_nonce() -> (r: Vec<u8>)
    ensures
        r@.len() == 16,
{
    let mut v: Vec<u8> = Vec::new();
    let mut i: usize = 0;
    while i < 16
        invariant
            v@.len() == i,
            i <= 16,
        decreases 16 - i,
    {
        let b: u8 = random_byte();
        v.push(b);
        i = i + 1;
    }
    v
}

} // verus!
