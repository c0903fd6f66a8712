//! Identities derived from a BIP39 phrase: signing key, encryption key and node id.
use vstd::prelude::*;
use vstd::string::*;
use sha2::Digest;
use crate::crypto::{CryptoError, SigningKeyPair, hkdf_sha256, hkdf_sha256_of};
use crate::encryption::{EncryptionKey, MAX_PLAINTEXT, sealed_message};
use crate::hashing::{base58_alphabet, base58_encode, base58_of};
use crate::keys::{array64_from, ed25519_public_key, ed25519_public_of, ed25519_sign, ed25519_sign_of, ed25519_verify};
use crate::seed::{SeedPhrase, bip39_seed_of, normalized_phrase, parsed_mnemonic, words_of};
use crate::text::{push_signed_decimal, signed_decimal_of};

verus! {

/// Failures of identity handling.
#[derive(Debug, Clone, PartialEq, Eq)]
pub enum IdentityError {
    InvalidSeedPhrase(String),
    KeyDerivation(String),
    Crypto(CryptoError),
}

/// The SHA-256 digest of a byte sequence.
pub uninterp spec fn sha256_of(b: Seq<u8>) -> Seq<u8>;

/// Relies on `sha2::Sha256::digest`: the 32-byte SHA-256 digest.
#[verifier::external_body]
fn sha256_digest(b: &[u8]) -> (r: [u8; 32])
    ensures
        r@ == sha256_of(b@),
{
    sha2::Sha256::digest(b).into()
}

/// Relies on `chrono::Utc::now().timestamp()`: seconds since the Unix epoch; nothing is
/// known of the value.
#[verifier::external_body]
pub(crate) fn utc_now() -> (r: i64) {
    chrono::Utc::now().timestamp()
}

/// Signing seed: HKDF-SHA256 (salt `cloudp2p-signing`, info `ed25519-signing-key`).
pub open spec fn signing_seed_of(master: Seq<u8>) -> Seq<u8> {
    hkdf_sha256_of("cloudp2p-signing".spec_bytes(), master, "ed25519-signing-key".spec_bytes())
}

/// Encryption key: HKDF-SHA256 (salt `cloudp2p-encryption`, info `aes-256-gcm-key`).
pub open spec fn encryption_key_of(master: Seq<u8>) -> Seq<u8> {
    hkdf_sha256_of("cloudp2p-encryption".spec_bytes(), master, "aes-256-gcm-key".spec_bytes())
}

/// Node id: SHA-256 of the Ed25519 public key.
pub open spec fn node_id_of(master: Seq<u8>) -> Seq<u8> {
    sha256_of(ed25519_public_of(signing_seed_of(master)))
}

/// The passphrase, empty when absent.
pub open spec fn passphrase_of(password: Option<&str>) -> Seq<char> {
    match password {
        Some(p) => p@,
        None => Seq::empty(),
    }
}

/// The master seed of a phrase and passphrase, when the phrase parses.
pub open spec fn master_seed_of(phrase: Seq<char>, passphrase: Seq<char>) -> Seq<u8> {
    bip39_seed_of(parsed_mnemonic(normalized_phrase(phrase))->Some_0, passphrase)
}

/// The canonical heartbeat text `heartbeat:<node_id>:<timestamp>`.
pub open spec fn heartbeat_text(node_id: Seq<char>, timestamp: int) -> Seq<char> {
    "heartbeat:"@ + node_id + ":"@ + signed_decimal_of(timestamp)
}

fn heartbeat_string(node_id: &str, timestamp: i64) -> (r: String)
    ensures
        r@ == heartbeat_text(node_id@, timestamp as int),
{
    let mut s = String::from_str("heartbeat:");
    s.append(node_id);
    s.append(":");
    push_signed_decimal(&mut s, timestamp);
    s
}

/// A node's keys, all derived from one master seed.
#[derive(Clone)]
pub struct UserIdentity {
    master_seed: [u8; 64],
    signing_keys: SigningKeyPair,
    encryption_key: EncryptionKey,
    node_id: [u8; 32],
}

impl UserIdentity {
    pub closed spec fn spec_master(&self) -> Seq<u8> {
        self.master_seed@
    }

    pub closed spec fn spec_signing_seed(&self) -> Seq<u8> {
        self.signing_keys.signing_key@
    }

    pub closed spec fn spec_public_key(&self) -> Seq<u8> {
        self.signing_keys.verifying_key@
    }

    pub closed spec fn spec_encryption_key(&self) -> Seq<u8> {
        self.encryption_key@
    }

    pub closed spec fn spec_node_id(&self) -> Seq<u8> {
        self.node_id@
    }

    /// Every key is the one derived from `master`.
    pub open spec fn derived_from(&self, master: Seq<u8>) -> bool {
        &&& self.spec_master() == master
        &&& self.spec_signing_seed() == signing_seed_of(master)
        &&& self.spec_public_key() == ed25519_public_of(signing_seed_of(master))
        &&& self.spec_encryption_key() == encryption_key_of(master)
        &&& self.spec_node_id() == node_id_of(master)
    }

    /// The keys agree with one another.
    pub open spec fn wf(&self) -> bool {
        self.derived_from(self.spec_master())
    }

    /// A new identity with a fresh phrase (12 words); returns the phrase, which recovers it.
    pub fn generate(password: Option<&str>) -> (r: Result<(UserIdentity, String), IdentityError>)
        ensures
            r is Ok,
            r matches Ok((id, phrase)) ==> parsed_mnemonic(normalized_phrase(phrase@)) is Some,
            r matches Ok((id, phrase)) ==> words_of(phrase@).len() == 12,
            r matches Ok((id, phrase)) ==> id.derived_from(master_seed_of(phrase@, passphrase_of(password))),
    {
        let seed_phrase = match SeedPhrase::generate(10) {
            Ok(s) => s,
            Err(e) => {
                return Err(e);
            },
        };
        let mnemonic_str = seed_phrase.to_string();
        let identity = match UserIdentity::from_seed_phrase(mnemonic_str.as_str(), password) {
            Ok(i) => i,
            Err(e) => {
                return Err(e);
            },
        };
        Ok((identity, mnemonic_str))
    }

    /// Recovers the identity of a phrase and optional passphrase (empty if absent).
    pub fn from_seed_phrase(mnemonic: &str, password: Option<&str>) -> (r: Result<UserIdentity, IdentityError>)
        ensures
            r is Ok <==> parsed_mnemonic(normalized_phrase(mnemonic@)) is Some,
            r matches Ok(id) ==> id.derived_from(master_seed_of(mnemonic@, passphrase_of(password))),
            r matches Err(e) ==> e is InvalidSeedPhrase,
    {
        let seed_phrase = match SeedPhrase::from_phrase(mnemonic) {
            Ok(s) => s,
            Err(e) => {
                return Err(e);
            },
        };
        let pass: &str = match password {
            Some(p) => p,
            None => "",
        };
        proof {
            reveal_strlit("");
        }
        assert(pass@ == passphrase_of(password));
        let master_seed = seed_phrase.to_seed(pass);
        assert(master_seed@ == master_seed_of(mnemonic@, passphrase_of(password)));
        let signing_keys = UserIdentity::derive_signing_keys(&master_seed);
        let encryption_key = UserIdentity::derive_encryption_key(&master_seed);
        let node_id = UserIdentity::derive_node_id(&signing_keys);
        assert(node_id@ == node_id_of(master_seed@));
        Ok(UserIdentity { master_seed, signing_keys, encryption_key, node_id })
    }

    fn derive_signing_keys(master_seed: &[u8; 64]) -> (r: SigningKeyPair)
        ensures
            r.signing_key@ == signing_seed_of(master_seed@),
            r.verifying_key@ == ed25519_public_of(signing_seed_of(master_seed@)),
    {
        let seed = match hkdf_sha256("cloudp2p-signing".as_bytes(), master_seed, "ed25519-signing-key".as_bytes()) {
            Ok(k) => k,
            Err(_) => [0u8; 32],
        };
        SigningKeyPair { signing_key: seed, verifying_key: ed25519_public_key(&seed) }
    }

    fn derive_encryption_key(master_seed: &[u8; 64]) -> (r: EncryptionKey)
        ensures
            r@ == encryption_key_of(master_seed@),
    {
        let key = match hkdf_sha256("cloudp2p-encryption".as_bytes(), master_seed, "aes-256-gcm-key".as_bytes()) {
            Ok(k) => k,
            Err(_) => [0u8; 32],
        };
        EncryptionKey::new(key)
    }

    fn derive_node_id(signing_keys: &SigningKeyPair) -> (r: [u8; 32])
        ensures
            r@ == sha256_of(signing_keys.verifying_key@),
    {
        sha256_digest(&signing_keys.verifying_key)
    }

    /// The Base58 form of the node id, for sharing.
    pub fn public_id(&self) -> (r: String)
        ensures
            r@ == base58_of(self.spec_node_id()),
            forall|i: int| 0 <= i < r@.len() ==> base58_alphabet().contains(#[trigger] r@[i]),
            r@.len() <= 44,
    {
        base58_encode(&self.node_id)
    }

    pub fn signing_keys(&self) -> (r: &SigningKeyPair)
        ensures
            r.signing_key@ == self.spec_signing_seed(),
            r.verifying_key@ == self.spec_public_key(),
    {
        &self.signing_keys
    }

    pub fn encryption_key(&self) -> (r: &EncryptionKey)
        ensures
            r@ == self.spec_encryption_key(),
    {
        &self.encryption_key
    }

    pub fn node_id(&self) -> (r: &[u8; 32])
        ensures
            r@ == self.spec_node_id(),
    {
        &self.node_id
    }

    /// The 64-byte Ed25519 signature of `message`.
    pub fn sign(&self, message: &[u8]) -> (r: Vec<u8>)
        ensures
            r@ == ed25519_sign_of(self.spec_signing_seed(), message@),
            r@.len() == 64,
    {
        let sig = ed25519_sign(&self.signing_keys.signing_key, message);
        vstd::slice::slice_to_vec(vstd::array::array_as_slice(&sig))
    }

    /// Whether `signature` is valid for `message`: false for any length but 64; true for
    /// this identity's own signature of the message.
    pub fn verify(&self, message: &[u8], signature: &[u8]) -> (r: bool)
        ensures
            signature@.len() != 64 ==> !r,
            self.wf() && signature@.len() == 64 && signature@ == ed25519_sign_of(self.spec_signing_seed(), message@) ==> r,
    {
        if signature.len() != 64 {
            return false;
        }
        let sig = array64_from(signature);
        ed25519_verify(&self.signing_keys.verifying_key, message, &sig)
    }

    /// Encrypts with the identity's key.
    pub fn encrypt(&self, plaintext: &[u8]) -> (r: Result<Vec<u8>, IdentityError>)
        ensures
            r is Ok <==> plaintext@.len() <= MAX_PLAINTEXT,
            r matches Ok(c) ==> sealed_message(self.spec_encryption_key(), c@, plaintext@) && c@.len() == plaintext@.len() + 28,
    {
        match self.encryption_key.encrypt(plaintext) {
            Ok(c) => Ok(c),
            Err(e) => Err(IdentityError::Crypto(e)),
        }
    }

    /// Decrypts with the identity's key.
    pub fn decrypt(&self, ciphertext: &[u8]) -> (r: Result<Vec<u8>, IdentityError>)
        ensures
            ciphertext@.len() >= 28 ==> forall|p: Seq<u8>|
                #[trigger] sealed_message(self.spec_encryption_key(), ciphertext@, p) ==> (r is Ok && r->Ok_0@ == p),
            r matches Ok(p) ==> sealed_message(self.spec_encryption_key(), ciphertext@, p@),
    {
        match self.encryption_key.decrypt(ciphertext) {
            Ok(p) => Ok(p),
            Err(e) => Err(IdentityError::Crypto(e)),
        }
    }

    /// A heartbeat stamped `timestamp`, signed over `heartbeat:<public id>:<timestamp>`.
    pub fn generate_heartbeat_at(&self, timestamp: i64) -> (r: HeartbeatMessage)
        ensures
            r.node_id@ == base58_of(self.spec_node_id()),
            r.timestamp == timestamp,
            r.signature@ == ed25519_sign_of(self.spec_signing_seed(), vstd::utf8::encode_utf8(heartbeat_text(r.node_id@, timestamp as int))),
    {
        let id = self.public_id();
        let message = heartbeat_string(id.as_str(), timestamp);
        let signature = self.sign(message.as_str().as_bytes());
        HeartbeatMessage { node_id: id, timestamp, signature }
    }

    /// A heartbeat stamped with the current time.
    pub fn generate_heartbeat(&self) -> (r: HeartbeatMessage)
        ensures
            r.node_id@ == base58_of(self.spec_node_id()),
            r.signature@ == ed25519_sign_of(self.spec_signing_seed(), vstd::utf8::encode_utf8(heartbeat_text(r.node_id@, r.timestamp as int))),
    {
        self.generate_heartbeat_at(utc_now())
    }
}

/// Whether `|now - timestamp| < window`.
pub open spec fn recent_at(timestamp: i64, now: i64, window: i64) -> bool {
    (if now >= timestamp { now - timestamp } else { timestamp - now }) < window
}

/// A signed liveness proof.
#[derive(Debug, Clone)]
pub struct HeartbeatMessage {
    pub node_id: String,
    pub timestamp: i64,
    pub signature: Vec<u8>,
}

impl HeartbeatMessage {
    /// Checks the signature over the canonical text: false for any length but 64; true
    /// when the seed of `verifying_key` signed that text.
    pub fn verify(&self, verifying_key: &[u8; 32]) -> (r: bool)
        ensures
            self.signature@.len() != 64 ==> !r,
            forall|seed: Seq<u8>|
                verifying_key@ == ed25519_public_of(seed) && self.signature@.len() == 64 && self.signature@
                    == #[trigger] ed25519_sign_of(seed, vstd::utf8::encode_utf8(heartbeat_text(self.node_id@, self.timestamp as int))) ==> r,
    {
        let message = heartbeat_string(self.node_id.as_str(), self.timestamp);
        if self.signature.len() != 64 {
            return false;
        }
        let sig = array64_from(self.signature.as_slice());
        ed25519_verify(verifying_key, message.as_str().as_bytes(), &sig)
    }

    /// Whether `|now - timestamp| < max_age_seconds`.
    pub fn is_recent_at(&self, now: i64, max_age_seconds: i64) -> (r: bool)
        ensures
            r == recent_at(self.timestamp, now, max_age_seconds),
    {
        let d: i128 = (now as i128) - (self.timestamp as i128);
        let a: i128 = if d >= 0 { d } else { -d };
        a < max_age_seconds as i128
    }

    /// `is_recent_at` with the current time.
    pub fn is_recent(&self, max_age_seconds: i64) -> (r: bool)
        ensures
            exists|now: i64| r == #[trigger] recent_at(self.timestamp, now, max_age_seconds),
    {
        self.is_recent_at(utc_now(), max_age_seconds)
    }
}

/// Identity determinism: two identities recovered from the same phrase and passphrase
/// have the same master seed, keys and node id, hence the same public id.
pub proof fn lemma_identity_determinism(a: UserIdentity, b: UserIdentity, phrase: Seq<char>, passphrase: Seq<char>)
    requires
        a.derived_from(master_seed_of(phrase, passphrase)),
        b.derived_from(master_seed_of(phrase, passphrase)),
    ensures
        a.spec_node_id() == b.spec_node_id(),
        base58_of(a.spec_node_id()) == base58_of(b.spec_node_id()),
        a.spec_signing_seed() == b.spec_signing_seed(),
        a.spec_public_key() == b.spec_public_key(),
        a.spec_encryption_key() == b.spec_encryption_key(),
{
}

} // verus!
