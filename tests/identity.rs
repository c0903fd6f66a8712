use sha2::Digest;
use cloudp2p_core::crypto::{CryptoError, SigningKeyPair, derive_key_from_password, random_32_bytes, random_bytes};
use cloudp2p_core::identity::{IdentityError, UserIdentity};
use cloudp2p_core::keys::KeyPair;
use cloudp2p_core::seed::SeedPhrase;
use cloudp2p_core::{CloudP2PConfig, CloudP2PNode};

const PHRASE: &str = "abandon abandon abandon abandon abandon abandon abandon abandon abandon abandon abandon about";

#[test]
fn test_random_bytes() {
    let bytes1 = random_bytes(32);
    let bytes2 = random_bytes(32);

    assert_eq!(bytes1.len(), 32);
    assert_ne!(bytes1, bytes2);
}

#[test]
fn test_signing_keypair() {
    let seed = random_32_bytes();
    let pair = KeyPair::from_bytes(&seed);
    let keypair = SigningKeyPair { signing_key: pair.signing_key, verifying_key: pair.verifying_key };

    let message = b"Test message";
    let signature = keypair.sign(message);

    assert!(keypair.verify(message, &signature).is_ok());
    assert!(keypair.verify(b"Wrong message", &signature).is_err());
}

#[test]
fn test_keypair_creation() {
    let seed = random_32_bytes();

    let keypair = KeyPair::from_bytes(&seed);

    assert_eq!(keypair.secret_key_bytes(), seed);
    assert_ne!(keypair.public_key_bytes(), seed);
}

#[test]
fn test_identity_generation() {
    let (identity, seed_phrase) = UserIdentity::generate(Some("password123")).unwrap();

    assert_eq!(seed_phrase.split_whitespace().count(), 12);
    assert!(!identity.public_id().is_empty());
}

#[test]
fn test_identity_recovery() {
    let (original, seed_phrase) = UserIdentity::generate(Some("password123")).unwrap();

    let recovered = UserIdentity::from_seed_phrase(&seed_phrase, Some("password123")).unwrap();

    assert_eq!(original.public_id(), recovered.public_id());
}

#[test]
fn test_sign_verify() {
    let (identity, _) = UserIdentity::generate(None).unwrap();

    let message = b"Hello, CloudP2P!";
    let signature = identity.sign(message);

    assert!(identity.verify(message, &signature));
    assert!(!identity.verify(b"Wrong message", &signature));
}

#[test]
fn mod_test_encrypt_decrypt() {
    let (identity, _) = UserIdentity::generate(None).unwrap();

    let plaintext = b"Secret file content";
    let ciphertext = identity.encrypt(plaintext).unwrap();
    let decrypted = identity.decrypt(&ciphertext).unwrap();

    assert_eq!(plaintext.to_vec(), decrypted);
}

#[test]
fn test_heartbeat() {
    let (identity, _) = UserIdentity::generate(None).unwrap();

    let heartbeat = identity.generate_heartbeat();

    assert!(heartbeat.verify(&identity.signing_keys().verifying_key));
    assert!(heartbeat.is_recent(60));
}

#[test]
fn test_generate_seed_phrase() {
    let seed = SeedPhrase::generate(12).unwrap();
    let words = seed.words();

    assert_eq!(words.len(), 12);

    let wordlist = bip39::Language::English.word_list();
    for word in words {
        assert!(wordlist.contains(&word));
    }
}

#[test]
fn test_seed_phrase_recovery() {
    let seed1 = SeedPhrase::generate(12).unwrap();
    let phrase = seed1.to_string();

    let seed2 = SeedPhrase::from_phrase(&phrase).unwrap();

    assert_eq!(seed1.to_seed("password"), seed2.to_seed("password"));
}

#[test]
fn test_passphrase_affects_seed() {
    let seed = SeedPhrase::generate(12).unwrap();

    let seed_no_pass = seed.to_seed("");
    let seed_with_pass = seed.to_seed("my_password");

    assert_ne!(seed_no_pass, seed_with_pass);
}

#[test]
fn test_validate_phrase() {
    assert!(SeedPhrase::validate(
        "abandon abandon abandon abandon abandon abandon abandon abandon abandon abandon abandon about"
    ));

    assert!(!SeedPhrase::validate("invalid phrase here"));
}

#[test]
fn test_word_suggestions() {
    let suggestions = SeedPhrase::suggest_word("aban");
    assert!(suggestions.contains(&"abandon"));
}

#[test]
fn lib_test_create_node() {
    let config = CloudP2PConfig::default();
    let (node, seed_phrase) = CloudP2PNode::new(Some("test_password"), config).unwrap();

    assert!(!seed_phrase.is_empty());
    assert!(!node.public_id().is_empty());

    let config2 = CloudP2PConfig::default();
    let recovered = CloudP2PNode::from_seed_phrase(&seed_phrase, Some("test_password"), config2).unwrap();

    assert_eq!(node.public_id(), recovered.public_id());
}

#[test]
fn known_phrase_gives_the_bip39_reference_seed() {
    let seed = SeedPhrase::from_phrase(PHRASE).unwrap();
    let s = seed.to_seed("TREZOR");
    assert_eq!(hex::encode(&s[..8]), "c55257c360c07c72");
}

#[test]
fn whitespace_is_normalized_before_parsing() {
    let messy = format!("  {}  ", PHRASE.replace(' ', "\t \n"));
    let a = UserIdentity::from_seed_phrase(&messy, Some("pw")).unwrap();
    let b = UserIdentity::from_seed_phrase(PHRASE, Some("pw")).unwrap();
    assert_eq!(a.public_id(), b.public_id());
    assert_eq!(SeedPhrase::from_phrase(&messy).unwrap().to_string(), PHRASE);
}

#[test]
fn same_phrase_and_passphrase_give_the_same_identity() {
    let a = UserIdentity::from_seed_phrase(PHRASE, Some("pw")).unwrap();
    let b = UserIdentity::from_seed_phrase(PHRASE, Some("pw")).unwrap();
    assert_eq!(a.public_id(), b.public_id());
    assert_eq!(a.node_id(), b.node_id());
    assert_eq!(a.signing_keys().signing_key, b.signing_keys().signing_key);
    assert_eq!(a.encryption_key().as_bytes(), b.encryption_key().as_bytes());
    let c = UserIdentity::from_seed_phrase(PHRASE, Some("other")).unwrap();
    assert_ne!(a.public_id(), c.public_id());
    let none = UserIdentity::from_seed_phrase(PHRASE, None).unwrap();
    let empty = UserIdentity::from_seed_phrase(PHRASE, Some("")).unwrap();
    assert_eq!(none.public_id(), empty.public_id());
}

#[test]
fn public_id_is_base58_of_sha256_of_the_public_key() {
    let a = UserIdentity::from_seed_phrase(PHRASE, Some("pw")).unwrap();
    let digest: [u8; 32] = sha2::Sha256::digest(a.signing_keys().verifying_key).into();
    assert_eq!(a.node_id(), &digest);
    assert_eq!(a.public_id(), bs58::encode(digest).into_string());
    assert!(a.public_id().len() >= 43 && a.public_id().len() <= 44);
}

#[test]
fn bad_phrases_and_word_counts_are_refused() {
    assert!(matches!(UserIdentity::from_seed_phrase("abandon abandon", None), Err(IdentityError::InvalidSeedPhrase(_))));
    assert!(matches!(SeedPhrase::generate(11), Err(IdentityError::InvalidSeedPhrase(_))));
    assert_eq!(SeedPhrase::generate(10).unwrap().words().len(), 12);
    assert_eq!(SeedPhrase::generate(24).unwrap().words().len(), 24);
    assert!(matches!(
        UserIdentity::from_seed_phrase(&PHRASE.replace("about", "abandon"), None),
        Err(IdentityError::InvalidSeedPhrase(_))
    ));
}

#[test]
fn signatures_fail_on_any_flipped_bit() {
    let a = UserIdentity::from_seed_phrase(PHRASE, Some("pw")).unwrap();
    let msg = b"message".to_vec();
    let sig = a.sign(&msg);
    assert_eq!(sig.len(), 64);
    assert!(a.verify(&msg, &sig));
    let mut m2 = msg.clone();
    m2[0] ^= 1;
    assert!(!a.verify(&m2, &sig));
    let mut s2 = sig.clone();
    s2[10] ^= 0x80;
    assert!(!a.verify(&msg, &s2));
    assert!(!a.verify(&msg, &sig[..63]));
    let pair = a.signing_keys();
    assert!(matches!(pair.verify(&msg, &sig[..63]), Err(CryptoError::InvalidData(_))));
    assert!(matches!(pair.verify(&m2, &sig), Err(CryptoError::SignatureVerificationFailed)));
}

#[test]
fn heartbeat_recency_window() {
    let a = UserIdentity::from_seed_phrase(PHRASE, Some("pw")).unwrap();
    let t = 1_700_000_000i64;
    let hb = a.generate_heartbeat_at(t);
    assert_eq!(hb.timestamp, t);
    assert_eq!(hb.node_id, a.public_id());
    assert!(hb.verify(&a.signing_keys().verifying_key));
    assert!(hb.is_recent_at(t + 30, 60));
    assert!(!hb.is_recent_at(t + 120, 60));
    assert!(hb.is_recent_at(t - 30, 60));
    assert!(!hb.is_recent_at(t + 60, 60));
    let mut forged = hb.clone();
    forged.timestamp += 1;
    assert!(!forged.verify(&a.signing_keys().verifying_key));
    let expected = format!("heartbeat:{}:{}", hb.node_id, t);
    assert!(a.verify(expected.as_bytes(), &hb.signature));
}

#[test]
fn password_keys_are_deterministic_per_salt() {
    let a = derive_key_from_password(b"password", b"somesalt").unwrap();
    let b = derive_key_from_password(b"password", b"somesalt").unwrap();
    let c = derive_key_from_password(b"password", b"othersalt").unwrap();
    assert_eq!(a, b);
    assert_ne!(a, c);
    assert!(matches!(derive_key_from_password(b"password", b"ab"), Err(CryptoError::InvalidKey(_))));
}
