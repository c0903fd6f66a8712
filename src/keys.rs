//! Ed25519 key pairs, held as their 32-byte secret seed and public key.
use vstd::prelude::*;
use ed25519_dalek::{Signer, Verifier};

verus! {

/// The Ed25519 public key of a 32-byte secret seed.
pub uninterp spec fn ed25519_public_of(seed: Seq<u8>) -> Seq<u8>;

/// The Ed25519 signature (deterministic, RFC 8032) of a message under a 32-byte secret seed.
pub uninterp spec fn ed25519_sign_of(seed: Seq<u8>, msg: Seq<u8>) -> Seq<u8>;

/// Relies on `SigningKey::from_bytes(..).verifying_key().to_bytes()`: the public key of
/// the seed.
#[verifier::external_body]
pub(crate) fn ed25519_public_key(seed: &[u8; 32]) -> (r: [u8; 32])
    ensures
        r@ == ed25519_public_of(seed@),
{
    ed25519_dalek::SigningKey::from_bytes(seed).verifying_key().to_bytes()
}

/// Relies on `Signer::sign` of `SigningKey::from_bytes(seed)`, then `Signature::to_bytes`:
/// the 64-byte signature, a function of seed and message.
#[verifier::external_body]
pub(crate) fn ed25519_sign(seed: &[u8; 32], msg: &[u8]) -> (r: [u8; 64])
    ensures
        r@ == ed25519_sign_of(seed@, msg@),
{
    ed25519_dalek::SigningKey::from_bytes(seed).sign(msg).to_bytes()
}

/// Relies on `VerifyingKey::from_bytes` and `Verifier::verify`: a signature that the
/// seed of this public key made over this message verifies.
#[verifier::external_body]
pub(crate) fn ed25519_verify(public: &[u8; 32], msg: &[u8], sig: &[u8; 64]) -> (r: bool)
    ensures
        forall|seed: Seq<u8>|
            public@ == ed25519_public_of(seed) && sig@ == #[trigger] ed25519_sign_of(seed, msg@) ==> r,
{
    match ed25519_dalek::VerifyingKey::from_bytes(public) {
        Ok(vk) => vk.verify(msg, &ed25519_dalek::Signature::from_bytes(sig)).is_ok(),
        Err(_) => false,
    }
}

/// Copies exactly 64 bytes into an array.
pub(crate) fn array64_from(v: &[u8]) -> (r: [u8; 64])
    requires
        v@.len() == 64,
    ensures
        r@ == v@,
{
    let mut arr = [0u8; 64];
    let mut i: usize = 0;
    while i < 64
        invariant
            i <= 64,
            v@.len() == 64,
            arr@.len() == 64,
            forall|j: int| 0 <= j < i ==> arr@[j] == v@[j],
        decreases 64 - i,
    {
        arr[i] = v[i];
        i = i + 1;
    }
    assert(arr@ =~= v@);
    arr
}

/// An Ed25519 key pair.
#[derive(Clone, Debug)]
pub struct KeyPair {
    /// The 32-byte secret seed.
    pub signing_key: [u8; 32],
    /// The public key of the seed.
    pub verifying_key: [u8; 32],
}

impl KeyPair {
    /// The pair whose secret seed is `bytes`.
    pub fn from_bytes(bytes: &[u8; 32]) -> (r: KeyPair)
        ensures
            r.signing_key@ == bytes@,
            r.verifying_key@ == ed25519_public_of(bytes@),
    {
        KeyPair { signing_key: *bytes, verifying_key: ed25519_public_key(bytes) }
    }

    /// The public key bytes.
    pub fn public_key_bytes(&self) -> (r: [u8; 32])
        ensures
            r@ == self.verifying_key@,
    {
        self.verifying_key
    }

    /// The secret seed bytes.
    pub fn secret_key_bytes(&self) -> (r: [u8; 32])
        ensures
            r@ == self.signing_key@,
    {
        self.signing_key
    }
}

} // verus!
