//! Signing identities. A key pair is held as the 32 secret bytes from which
//! Ed25519 derives everything else.

use ed25519_dalek::Signer;
use ed25519_dalek::SigningKey;
use ed25519_dalek::Verifier;
use ed25519_dalek::VerifyingKey;
use vstd::prelude::*;

verus! {

/// The public key that Ed25519 derives from a secret seed.
pub uninterp spec fn ed25519_public_key(seed: Seq<u8>) -> Seq<u8>;

/// The signature that Ed25519 makes of a message under a secret seed.
pub uninterp spec fn ed25519_signature(seed: Seq<u8>, message: Seq<u8>) -> Seq<u8>;

/// Whether Ed25519 accepts a signature of a message under a public key.
pub uninterp spec fn ed25519_verifies(public_key: Seq<u8>, message: Seq<u8>, signature: Seq<u8>) -> bool;

/// Calls `SigningKey::from_bytes` and `SigningKey::verifying_key`. Trusted:
/// the public key is a function of the seed alone.
#[verifier::external_body]
fn ed25519_derive_public(seed: &[u8; 32]) -> (public_key: [u8; 32])
    ensures
        public_key@ == ed25519_public_key(seed@),
{
    SigningKey::from_bytes(seed).verifying_key().to_bytes()
}

/// Calls `SigningKey::from_bytes` and `Signer::sign`. Trusted: the signature
/// is a function of seed and message alone, and verification under the
/// seed's own public key accepts it.
#[verifier::external_body]
fn ed25519_sign(seed: &[u8; 32], message: &[u8]) -> (signature: [u8; 64])
    ensures
        signature@ == ed25519_signature(seed@, message@),
        ed25519_verifies(ed25519_public_key(seed@), message@, signature@),
{
    SigningKey::from_bytes(seed).sign(message).to_bytes()
}

/// Builds a `VerifyingKey` from 32 bytes and a `Signature` from 64 bytes and
/// calls `Verifier::verify`; bytes that make no key or no signature count as
/// not accepted. Trusted: the answer is a function of the three byte strings
/// alone.
#[verifier::external_body]
pub(crate) fn ed25519_verify(public_key: &[u8], message: &[u8], signature: &[u8]) -> (accepted: bool)
    requires
        public_key@.len() == 32,
        signature@.len() == 64,
    ensures
        accepted == ed25519_verifies(public_key@, message@, signature@),
{
    match (VerifyingKey::try_from(public_key), ed25519_dalek::Signature::from_slice(signature)) {
        (Ok(key), Ok(parsed)) => key.verify(message, &parsed).is_ok(),
        _ => false,
    }
}

/// A signing identity.
pub struct CryptoKeypair {
    seed: [u8; 32],
}

impl View for CryptoKeypair {
    type V = Seq<u8>;

    closed spec fn view(&self) -> Seq<u8> {
        self.seed@
    }
}

impl CryptoKeypair {
    /// The identity whose secret is `seed`.
    pub fn from_seed(seed: [u8; 32]) -> (keypair: CryptoKeypair)
        ensures
            keypair@ == seed@,
    {
        CryptoKeypair { seed }
    }

    /// The public half of the identity.
    pub fn public_key(&self) -> (public_key: [u8; 32])
        ensures
            public_key@ == ed25519_public_key(self@),
    {
        ed25519_derive_public(&self.seed)
    }

    /// Signs a message. The identity's public key verifies the result.
    pub fn sign(&self, message: &[u8]) -> (signature: [u8; 64])
        ensures
            signature@ == ed25519_signature(self@, message@),
            ed25519_verifies(ed25519_public_key(self@), message@, signature@),
    {
        ed25519_sign(&self.seed, message)
    }
}

} // verus!
