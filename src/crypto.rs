//! Cryptographic building blocks: errors, randomness and key derivation.
use vstd::prelude::*;
use rand::RngCore;
use argon2::PasswordHasher;
use crate::keys::{ed25519_public_of, ed25519_sign, ed25519_sign_of, ed25519_verify};

verus! {

/// Failures of the cryptographic layer.
#[derive(Debug, Clone, PartialEq, Eq)]
pub enum CryptoError {
    EncryptionFailed(String),
    DecryptionFailed(String),
    InvalidKey(String),
    InvalidData(String),
    SignatureVerificationFailed,
}

/// Relies on `rand::thread_rng().fill_bytes`: `len` bytes from a cryptographically
/// secure generator; nothing is known of their values.
#[verifier::external_body]
pub fn random_bytes(len: usize) -> (r: Vec<u8>)
    ensures
        r@.len() == len,
{
    let mut bytes = vec![0u8; len];
    rand::thread_rng().fill_bytes(&mut bytes);
    bytes
}

/// Relies on `rand::thread_rng().fill_bytes`: 32 bytes from a cryptographically secure
/// generator.
#[verifier::external_body]
pub fn random_32_bytes() -> (r: [u8; 32]) {
    let mut bytes = [0u8; 32];
    rand::thread_rng().fill_bytes(&mut bytes);
    bytes
}

/// Relies on `aes_gcm::aead::OsRng` (`fill_bytes`): `len` bytes from the operating
/// system's generator; nothing is known of their values.
#[verifier::external_body]
pub(crate) fn os_random_bytes(len: usize) -> (r: Vec<u8>)
    ensures
        r@.len() == len,
{
    let mut bytes = vec![0u8; len];
    aes_gcm::aead::OsRng.fill_bytes(&mut bytes);
    bytes
}

/// The first 32 bytes of HKDF-SHA256 output for a salt, input key material and info.
pub uninterp spec fn hkdf_sha256_of(salt: Seq<u8>, ikm: Seq<u8>, info: Seq<u8>) -> Seq<u8>;

#[verifier::external_type_specification]
#[verifier::external_body]
pub struct ExInvalidLength(hkdf::InvalidLength);

/// Relies on `hkdf::Hkdf::<sha2::Sha256>::new(Some(salt), ikm).expand(info, ..)`: 32 bytes
/// of output key material; `expand` fails only beyond 255 * 32 bytes of output.
#[verifier::external_body]
pub(crate) fn hkdf_sha256(salt: &[u8], ikm: &[u8], info: &[u8]) -> (r: Result<[u8; 32], hkdf::InvalidLength>)
    ensures
        r is Ok,
        r matches Ok(k) ==> k@ == hkdf_sha256_of(salt@, ikm@, info@),
{
    let hk = hkdf::Hkdf::<sha2::Sha256>::new(Some(salt), ikm);
    let mut okm = [0u8; 32];
    hk.expand(info, &mut okm).map(|_| okm)
}


/// An Ed25519 signing key pair: the secret seed and its public key.
#[derive(Clone, Debug)]
pub struct SigningKeyPair {
    pub signing_key: [u8; 32],
    pub verifying_key: [u8; 32],
}

impl SigningKeyPair {
    /// The pair is consistent: the public key is that of the seed.
    pub open spec fn wf(&self) -> bool {
        self.verifying_key@ == ed25519_public_of(self.signing_key@)
    }

    /// Signs `message`: 64 bytes.
    pub fn sign(&self, message: &[u8]) -> (r: Vec<u8>)
        ensures
            r@ == ed25519_sign_of(self.signing_key@, message@),
            r@.len() == 64,
    {
        let sig = ed25519_sign(&self.signing_key, message);
        vstd::slice::slice_to_vec(vstd::array::array_as_slice(&sig))
    }

    /// Checks a signature: a length other than 64 is `InvalidData`; a signature this
    /// pair's seed made over `message` is accepted.
    pub fn verify(&self, message: &[u8], signature: &[u8]) -> (r: Result<(), CryptoError>)
        ensures
            signature@.len() != 64 ==> (r is Err && r->Err_0 is InvalidData),
            self.wf() && signature@.len() == 64 && signature@ == ed25519_sign_of(self.signing_key@, message@) ==> r is Ok,
            r matches Err(e) ==> (e is InvalidData || e is SignatureVerificationFailed),
    {
        if signature.len() != 64 {
            return Err(CryptoError::InvalidData(String::from_str("invalid signature length")));
        }
        let sig = crate::keys::array64_from(signature);
        if ed25519_verify(&self.verifying_key, message, &sig) {
            Ok(())
        } else {
            Err(CryptoError::SignatureVerificationFailed)
        }
    }
}


/// Standard Base64 without padding.
pub uninterp spec fn base64_no_pad_of(b: Seq<u8>) -> Seq<char>;

/// The Argon2id hash (default parameters) of a password under a Base64-encoded salt.
pub uninterp spec fn argon2id_of(password: Seq<u8>, salt_b64: Seq<char>) -> Seq<u8>;

/// Relies on `base64::Engine::encode` with `STANDARD_NO_PAD`.
#[verifier::external_body]
fn base64_no_pad(b: &[u8]) -> (r: String)
    ensures
        r@ == base64_no_pad_of(b@),
{
    base64::Engine::encode(&base64::engine::general_purpose::STANDARD_NO_PAD, b)
}

#[verifier::external_type_specification]
#[verifier::external_body]
pub struct ExPasswordHashError(argon2::password_hash::Error);

/// Relies on `SaltString::from_b64` and `Argon2::default().hash_password`: the Argon2id
/// output (32 bytes by default) of the password under the salt, or an error for a salt
/// text that is refused.
#[verifier::external_body]
fn argon2_hash(password: &[u8], salt_b64: &str) -> (r: Result<Option<Vec<u8>>, argon2::password_hash::Error>)
    ensures
        r matches Ok(Some(h)) ==> h@ == argon2id_of(password@, salt_b64@) && h@.len() == 32,
{
    let salt = argon2::password_hash::SaltString::from_b64(salt_b64)?;
    let hash = argon2::Argon2::default().hash_password(password, &salt)?;
    Ok(hash.hash.map(|h| h.as_bytes().to_vec()))
}

/// A 32-byte key from a password with Argon2id (default parameters), the salt given
/// as Base64 without padding; fails with `InvalidKey` when the salt is refused.
pub fn derive_key_from_password(password: &[u8], salt: &[u8]) -> (r: Result<[u8; 32], CryptoError>)
    ensures
        r matches Ok(k) ==> k@ == argon2id_of(password@, base64_no_pad_of(salt@)),
        r matches Err(e) ==> e is InvalidKey,
{
    let salt_b64 = base64_no_pad(salt);
    match argon2_hash(password, salt_b64.as_str()) {
        Ok(Some(h)) => Ok(crate::hashing::array32_from(h.as_slice())),
        Ok(None) => Err(CryptoError::InvalidKey(String::from_str("No hash output"))),
        Err(_) => Err(CryptoError::InvalidKey(String::from_str("invalid salt"))),
    }
}

} // verus!
