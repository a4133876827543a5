//! The cryptographic primitives that sessions rest on.
//!
//! Each function here calls one function of an outside crate. What those
//! functions compute is not restated: every result is named by a spec function
//! of the arguments, and the rest of the library speaks of these names.

use curve25519_dalek::montgomery::MontgomeryPoint;
use ed25519_dalek::Signer;
use subtle::ConstantTimeEq;
use vstd::prelude::*;
use zeroize::Zeroize;

verus! {

/// The BLAKE3 digest of `input`.
pub uninterp spec fn blake3_digest(input: Seq<u8>) -> [u8; 32];

pub open spec fn blake3_hash(input: Seq<u8>) -> Seq<u8> {
    blake3_digest(input)@
}

/// The keyed BLAKE3 digest of `input` under `key`.
pub uninterp spec fn blake3_keyed_digest(key: Seq<u8>, input: Seq<u8>) -> [u8; 32];

pub open spec fn blake3_keyed_hash(key: Seq<u8>, input: Seq<u8>) -> Seq<u8> {
    blake3_keyed_digest(key, input)@
}

/// The key that BLAKE3 derives from `material` in `context`.
pub uninterp spec fn blake3_derived_key(context: Seq<char>, material: Seq<u8>) -> [u8; 32];

pub open spec fn blake3_derive_key(context: Seq<char>, material: Seq<u8>) -> Seq<u8> {
    blake3_derived_key(context, material)@
}

/// The base point of the Montgomery curve times the clamped `secret`.
pub uninterp spec fn montgomery_base_times(secret: Seq<u8>) -> [u8; 32];

/// The X25519 public key of `secret`.
pub open spec fn x25519_public(secret: Seq<u8>) -> Seq<u8> {
    montgomery_base_times(secret)@
}

/// The Montgomery point `point` times the clamped `secret`.
pub uninterp spec fn montgomery_point_times(secret: Seq<u8>, point: Seq<u8>) -> [u8; 32];

/// What the holder of `secret` shares with the holder of the key `point`.
pub open spec fn x25519_shared(secret: Seq<u8>, point: Seq<u8>) -> Seq<u8> {
    montgomery_point_times(secret, point)@
}

/// The Ed25519 verifying key of the signing key with this seed.
pub uninterp spec fn ed25519_verifying_key(seed: Seq<u8>) -> [u8; 32];

pub open spec fn ed25519_public(seed: Seq<u8>) -> Seq<u8> {
    ed25519_verifying_key(seed)@
}

/// The Ed25519 signature of `message` under the signing key with this seed.
pub uninterp spec fn ed25519_signed(seed: Seq<u8>, message: Seq<u8>) -> [u8; 64];

pub open spec fn ed25519_signature(seed: Seq<u8>, message: Seq<u8>) -> Seq<u8> {
    ed25519_signed(seed, message)@
}

/// Whether `key` is the encoding of a point that can serve as a verifying key.
pub uninterp spec fn ed25519_key_valid(key: Seq<u8>) -> bool;

/// Whether `key` is a verifying key under which the strict check accepts
/// `signature` for `message`.
pub uninterp spec fn ed25519_accepts(
    key: Seq<u8>,
    message: Seq<u8>,
    signature: Seq<u8>,
) -> bool;

/// The encoding of the neutral element of the Edwards curve.
pub open spec fn ed25519_neutral_point() -> Seq<u8> {
    Seq::new(32, |i: int| if i == 0 { 1u8 } else { 0u8 })
}

/// Whether a signature commits to the neutral point. The strict check refuses
/// such a signature; one out of about 2^252 nonces produces it.
pub open spec fn ed25519_degenerate(signature: Seq<u8>) -> bool {
    signature.subrange(0, 32) == ed25519_neutral_point()
}

pub open spec fn zeros(n: nat) -> Seq<u8> {
    Seq::new(n, |i: int| 0u8)
}

/// Calls `blake3::hash`. The digest is a function of the input alone; hashing
/// the pieces of the input one after the other gives the same digest.
#[verifier::external_body]
pub(crate) fn hash(input: &[u8]) -> (digest: [u8; 32])
    ensures
        digest == blake3_digest(input@),
{
    *blake3::hash(input).as_bytes()
}

/// Calls `blake3::keyed_hash`. The digest is a function of the key and the
/// input alone.
#[verifier::external_body]
pub(crate) fn keyed_hash(key: &[u8; 32], input: &[u8]) -> (digest: [u8; 32])
    ensures
        digest == blake3_keyed_digest(key@, input@),
{
    *blake3::keyed_hash(key, input).as_bytes()
}

/// Calls `blake3::derive_key`. The key is a function of the context string and
/// the key material alone.
#[verifier::external_body]
pub(crate) fn derive_key(context: &str, material: &[u8]) -> (key: [u8; 32])
    ensures
        key == blake3_derived_key(context@, material@),
{
    blake3::derive_key(context, material)
}

/// Calls `curve25519_dalek::MontgomeryPoint::mul_base_clamped`. The public key
/// is a function of the secret alone.
#[verifier::external_body]
pub(crate) fn mul_base_clamped(secret: &[u8; 32]) -> (point: [u8; 32])
    ensures
        point == montgomery_base_times(secret@),
{
    MontgomeryPoint::mul_base_clamped(*secret).to_bytes()
}

/// Calls `curve25519_dalek::MontgomeryPoint::mul_clamped`. The product is a
/// function of the secret and the point alone. Where the point is a public key,
/// it is the product that the owner of that key computes from the public key of
/// `secret`: multiplication of the base point by both scalars commutes.
#[verifier::external_body]
pub(crate) fn mul_clamped(secret: &[u8; 32], point: &[u8; 32]) -> (shared: [u8; 32])
    ensures
        shared == montgomery_point_times(secret@, point@),
        forall|peer: Seq<u8>|
            peer.len() == 32 && #[trigger] montgomery_base_times(peer)@ == point@ ==> shared
                == montgomery_point_times(peer, montgomery_base_times(secret@)@),
{
    MontgomeryPoint(*point).mul_clamped(*secret).to_bytes()
}

/// Calls `ed25519_dalek::SigningKey::verifying_key` on the key with this seed.
/// The verifying key is a function of the seed alone, and it is the encoding of
/// a point.
#[verifier::external_body]
pub(crate) fn signing_public(seed: &[u8; 32]) -> (key: [u8; 32])
    ensures
        key == ed25519_verifying_key(seed@),
        ed25519_key_valid(key@),
{
    ed25519_dalek::SigningKey::from_bytes(seed).verifying_key().to_bytes()
}

/// Calls `ed25519_dalek::SigningKey::sign` on the key with this seed. Signing
/// draws no randomness, so the signature is a function of the seed and the
/// message. The key's own strict check accepts it, unless the nonce that was
/// hashed out of seed and message is a multiple of the group order and the
/// signature commits to the neutral point.
#[verifier::external_body]
pub(crate) fn sign(seed: &[u8; 32], message: &[u8]) -> (signature: [u8; 64])
    ensures
        signature == ed25519_signed(seed@, message@),
        ed25519_accepts(ed25519_verifying_key(seed@)@, message@, signature@)
            || ed25519_degenerate(signature@),
{
    ed25519_dalek::SigningKey::from_bytes(seed).sign(message).to_bytes()
}

/// Calls `ed25519_dalek::VerifyingKey::from_bytes`. Whether the key decodes is
/// a function of its bytes alone.
#[verifier::external_body]
pub(crate) fn verifying_key_valid(key: &[u8; 32]) -> (valid: bool)
    ensures
        valid == ed25519_key_valid(key@),
{
    ed25519_dalek::VerifyingKey::from_bytes(key).is_ok()
}

/// Calls `ed25519_dalek::VerifyingKey::verify_strict`. The verdict is a
/// function of the key, the message and the signature alone; a key that does
/// not decode accepts nothing.
#[verifier::external_body]
pub(crate) fn verify_strict(key: &[u8; 32], message: &[u8], signature: &[u8; 64]) -> (accepted: bool)
    ensures
        accepted == ed25519_accepts(key@, message@, signature@),
        accepted ==> ed25519_key_valid(key@),
{
    match ed25519_dalek::VerifyingKey::from_bytes(key) {
        Ok(key) => key.verify_strict(message, &ed25519_dalek::Signature::from_bytes(signature)).is_ok(),
        Err(_) => false,
    }
}

/// Calls `subtle::ConstantTimeEq::ct_eq` on two byte slices, which tells
/// whether they are equal, in a time that depends on their lengths only.
#[verifier::external_body]
pub(crate) fn constant_time_eq(left: &[u8], right: &[u8]) -> (equal: bool)
    ensures
        equal == (left@ == right@),
{
    bool::from(left.ct_eq(right))
}

/// Calls `zeroize::Zeroize::zeroize`, which overwrites the array with zeros.
#[verifier::external_body]
pub(crate) fn wipe(secret: &mut [u8; 32])
    ensures
        final(secret)@ == zeros(32),
    opens_invariants none
    no_unwind
{
    secret.zeroize();
}

} // verus!
