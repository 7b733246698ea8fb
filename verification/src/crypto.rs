//! The two cryptographic primitives the core consumes: the BLAKE2b-256
//! digest used for extrinsic and header hashes, and ed25519 signatures.
//!
//! Both are outside computations whose results are pure functions of their
//! inputs; the spec functions below name those results, and the contracts of
//! the callers speak of the names.

use blake2::digest::consts::U32;
use blake2::{Blake2b, Digest};
use ed25519_dalek::Signer;
use vstd::prelude::*;

verus! {

/// The 32-byte BLAKE2b-256 digest of `data`.
pub uninterp spec fn blake2_256_of(data: Seq<u8>) -> Seq<u8>;

/// The 32-byte ed25519 public key derived from the 32-byte secret `seed`.
pub uninterp spec fn ed25519_public_of(seed: Seq<u8>) -> Seq<u8>;

/// The 64-byte deterministic ed25519 signature of `message` under `seed`.
pub uninterp spec fn ed25519_sign_of(seed: Seq<u8>, message: Seq<u8>) -> Seq<u8>;

/// Whether `signature` is a valid ed25519 signature of `message` under the
/// 32-byte public key `public`.
pub uninterp spec fn ed25519_verifies(
    public: Seq<u8>,
    message: Seq<u8>,
    signature: Seq<u8>,
) -> bool;

/// Relies on `blake2::Blake2b` with a 32-byte output size: the digest is a
/// function of the input bytes alone and is 32 bytes long.
#[verifier::external_body]
pub fn blake2_256(data: &Vec<u8>) -> (r: Vec<u8>)
    ensures
        r@ == blake2_256_of(data@),
        r@.len() == 32,
{
    let mut hasher: Blake2b<U32> = Blake2b::new();
    hasher.update(data.as_slice());
    hasher.finalize().to_vec()
}

/// Relies on `ed25519_dalek::SigningKey::verifying_key`: the public key is a
/// function of the 32-byte secret seed alone and is 32 bytes long.
#[verifier::external_body]
pub fn ed25519_public(seed: &Vec<u8>) -> (r: Vec<u8>)
    requires
        seed@.len() == 32,
    ensures
        r@ == ed25519_public_of(seed@),
        r@.len() == 32,
{
    let mut arr = [0u8; 32];
    arr.copy_from_slice(seed.as_slice());
    ed25519_dalek::SigningKey::from_bytes(&arr).verifying_key().to_bytes().to_vec()
}

/// Relies on `ed25519_dalek::SigningKey::sign`: signing is deterministic
/// (RFC 8032), produces 64 bytes, and the signature verifies under the
/// signer's public key.
#[verifier::external_body]
pub fn ed25519_sign(seed: &Vec<u8>, message: &Vec<u8>) -> (r: Vec<u8>)
    requires
        seed@.len() == 32,
    ensures
        r@ == ed25519_sign_of(seed@, message@),
        r@.len() == 64,
        ed25519_verifies(ed25519_public_of(seed@), message@, r@),
{
    let mut arr = [0u8; 32];
    arr.copy_from_slice(seed.as_slice());
    let key = ed25519_dalek::SigningKey::from_bytes(&arr);
    key.sign(message.as_slice()).to_bytes().to_vec()
}

/// Relies on `ed25519_dalek::VerifyingKey::verify_strict`: acceptance is a
/// function of key, message and signature bytes alone.
#[verifier::external_body]
pub fn ed25519_verify(public: &Vec<u8>, message: &Vec<u8>, signature: &Vec<u8>) -> (r: bool)
    requires
        public@.len() == 32,
        signature@.len() == 64,
    ensures
        r == ed25519_verifies(public@, message@, signature@),
{
    let mut key_arr = [0u8; 32];
    key_arr.copy_from_slice(public.as_slice());
    let mut sig_arr = [0u8; 64];
    sig_arr.copy_from_slice(signature.as_slice());
    match ed25519_dalek::VerifyingKey::from_bytes(&key_arr) {
        Ok(key) => {
            let sig = ed25519_dalek::Signature::from_bytes(&sig_arr);
            key.verify_strict(message.as_slice(), &sig).is_ok()
        },
        Err(_) => false,
    }
}

} // verus!
