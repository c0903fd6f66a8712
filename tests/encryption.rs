use cloudp2p_core::crypto::CryptoError;
use cloudp2p_core::encryption::{EncryptedFile, EncryptionKey, FileEncryptor, derive_file_key};

#[test]
fn encryption_test_encrypt_decrypt() {
    let key = EncryptionKey::generate();
    let plaintext = b"Hello, CloudP2P! This is a secret message.";

    let ciphertext = key.encrypt(plaintext).unwrap();
    let decrypted = key.decrypt(&ciphertext).unwrap();

    assert_eq!(plaintext.to_vec(), decrypted);
}

#[test]
fn test_different_keys_fail() {
    let key1 = EncryptionKey::generate();
    let key2 = EncryptionKey::generate();

    let plaintext = b"Secret data";
    let ciphertext = key1.encrypt(plaintext).unwrap();

    assert!(key2.decrypt(&ciphertext).is_err());
}

#[test]
fn test_file_encryptor() {
    let key = EncryptionKey::generate();
    let encryptor = FileEncryptor::new(key.clone()).with_chunk_size(1024);

    let data: Vec<u8> = (0..5000).map(|i| (i % 256) as u8).collect();

    let encrypted = encryptor.encrypt_file(&data).unwrap();
    let decrypted = encryptor.decrypt_file(&encrypted).unwrap();

    assert_eq!(data, decrypted);
    assert!(encrypted.chunk_count() > 1);
}

#[test]
fn test_chunk_random_access() {
    let key = EncryptionKey::generate();
    let encryptor = FileEncryptor::new(key.clone()).with_chunk_size(100);

    let data: Vec<u8> = (0..500).map(|i| (i % 256) as u8).collect();
    let encrypted = encryptor.encrypt_file(&data).unwrap();

    let chunk0 = encryptor.decrypt_chunk(&encrypted, 0).unwrap();
    let chunk2 = encryptor.decrypt_chunk(&encrypted, 2).unwrap();

    assert_eq!(&data[0..100], &chunk0[..]);
    assert_eq!(&data[200..300], &chunk2[..]);
}

#[test]
fn test_derive_file_key() {
    let master_key = EncryptionKey::generate();
    let file_id1 = b"file-001";
    let file_id2 = b"file-002";

    let key1 = derive_file_key(&master_key, file_id1);
    let key2 = derive_file_key(&master_key, file_id2);
    let key1_again = derive_file_key(&master_key, file_id1);

    assert_ne!(key1.as_bytes(), key2.as_bytes());
    assert_eq!(key1.as_bytes(), key1_again.as_bytes());
}

#[test]
fn ciphertext_layout_is_nonce_body_tag() {
    let key = EncryptionKey::new([7u8; 32]);
    let c = key.encrypt(b"abc").unwrap();
    assert_eq!(c.len(), 3 + 28);
    assert_ne!(&c[12..15], b"abc");
    let c2 = key.encrypt(b"abc").unwrap();
    assert_ne!(c[..12], c2[..12]);
    assert_eq!(key.decrypt(&c2).unwrap(), b"abc".to_vec());
}

#[test]
fn decrypt_refuses_short_and_tampered_input() {
    let key = EncryptionKey::new([1u8; 32]);
    assert!(matches!(key.decrypt(&[0u8; 27]), Err(CryptoError::DecryptionFailed(_))));
    let mut c = key.encrypt(b"payload").unwrap();
    let last = c.len() - 1;
    c[last] ^= 1;
    assert!(matches!(key.decrypt(&c), Err(CryptoError::DecryptionFailed(_))));
    let empty = key.encrypt(b"").unwrap();
    assert_eq!(empty.len(), 28);
    assert_eq!(key.decrypt(&empty).unwrap(), Vec::<u8>::new());
}

#[test]
fn chunk_layout_and_every_chunk_decrypts() {
    let encryptor = FileEncryptor::new(EncryptionKey::new([3u8; 32])).with_chunk_size(64);
    let data: Vec<u8> = (0..200u32).map(|i| i as u8).collect();
    let ef = encryptor.encrypt_file(&data).unwrap();
    assert_eq!(ef.chunk_count(), 4);
    assert_eq!(ef.chunk_offsets, vec![0, 92, 184, 276]);
    assert_eq!(ef.encrypted_size(), 200 + 4 * 28);
    assert_eq!(ef.original_size, 200);
    for i in 0..4 {
        let end = std::cmp::min((i + 1) * 64, 200);
        assert_eq!(encryptor.decrypt_chunk(&ef, i).unwrap(), data[i * 64..end].to_vec());
    }
    assert!(matches!(encryptor.decrypt_chunk(&ef, 4), Err(CryptoError::InvalidData(_))));
}

#[test]
fn empty_file_has_no_chunks() {
    let encryptor = FileEncryptor::new(EncryptionKey::new([5u8; 32]));
    let ef = encryptor.encrypt_file(&[]).unwrap();
    assert_eq!(ef.chunk_count(), 0);
    assert_eq!(encryptor.decrypt_file(&ef).unwrap(), Vec::<u8>::new());
}

#[test]
fn malformed_offsets_are_invalid_data() {
    let encryptor = FileEncryptor::new(EncryptionKey::new([5u8; 32]));
    let ef = EncryptedFile { data: vec![0u8; 40], chunk_offsets: vec![30, 10], original_size: 1, chunk_size: 1 };
    assert!(matches!(encryptor.decrypt_file(&ef), Err(CryptoError::InvalidData(_))));
    assert!(matches!(encryptor.decrypt_chunk(&ef, 0), Err(CryptoError::InvalidData(_))));
}

#[test]
fn serialization_round_trips_and_ignores_trailing_bytes() {
    let ef = EncryptedFile { data: vec![1, 2, 3], chunk_offsets: vec![0, 2], original_size: 9, chunk_size: 64 };
    let bytes = ef.to_bytes().unwrap();
    assert_eq!(bytes.len(), 32 + 3 + 16);
    assert_eq!(&bytes[..8], &[3, 0, 0, 0, 0, 0, 0, 0]);
    assert_eq!(&bytes[8..11], &[1, 2, 3]);
    assert_eq!(&bytes[11..19], &[2, 0, 0, 0, 0, 0, 0, 0]);
    let mut padded = bytes.clone();
    padded.extend_from_slice(&[0, 0, 0, 0]);
    let back = EncryptedFile::from_bytes(&padded).unwrap();
    assert_eq!(back.data, ef.data);
    assert_eq!(back.chunk_offsets, ef.chunk_offsets);
    assert_eq!(back.original_size, 9);
    assert_eq!(back.chunk_size, 64);
    assert!(matches!(EncryptedFile::from_bytes(&bytes[..bytes.len() - 1]), Err(CryptoError::InvalidData(_))));
}

#[test]
fn file_key_depends_on_master_and_id() {
    let a = derive_file_key(&EncryptionKey::new([1u8; 32]), b"id");
    let b = derive_file_key(&EncryptionKey::new([2u8; 32]), b"id");
    assert_ne!(a.as_bytes(), b.as_bytes());
    assert_ne!(a.as_bytes(), &[1u8; 32]);
}
