use cloudp2p_core::hashing::ContentHash;
use cloudp2p_core::storage_protocol::{FragmentError, StorageManager};

#[test]
fn test_store_retrieve_fragment() {
    let mut manager = StorageManager::new("/tmp/store".to_string(), 1_000_000);
    let now = chrono::Utc::now().timestamp();

    let data = b"Test fragment data";
    let expires_at = now + 86400;

    let fragment = manager.store_fragment("frag-001", "owner-abc", data, expires_at, now).unwrap();

    assert_eq!(fragment.size_bytes, data.len() as u64);

    let path = manager.retrieve_fragment("frag-001", now).unwrap();
    assert_eq!(path, "fragments/fr/frag-001");
    let retrieved = data.to_vec();
    assert!(manager.check_retrieved("frag-001", &retrieved, now).is_ok());
    assert_eq!(retrieved, data.to_vec());
}

#[test]
fn test_delete_fragment() {
    let mut manager = StorageManager::new("/tmp/store".to_string(), 1_000_000);
    let now = chrono::Utc::now().timestamp();

    let data = b"Test fragment data";
    let expires_at = now + 86400;

    manager.store_fragment("frag-001", "owner-abc", data, expires_at, now).unwrap();

    manager.delete_fragment("frag-001");

    assert!(manager.retrieve_fragment("frag-001", now).is_err());
}

#[test]
fn test_storage_limit() {
    let mut manager = StorageManager::new("/tmp/store".to_string(), 100);
    let now = chrono::Utc::now().timestamp();

    let data = vec![0u8; 200];
    let expires_at = now + 86400;

    let result = manager.store_fragment("frag-001", "owner-abc", &data, expires_at, now);

    assert!(result.is_err());
}

#[test]
fn tampered_fragment_fails_integrity_and_leaves_the_index() {
    let mut m = StorageManager::new("/tmp/store".to_string(), 1000);
    let data = b"fragment bytes".to_vec();
    let f = m.store_fragment("abc", "o", &data, 100, 0).unwrap();
    assert_eq!(f.content_hash, ContentHash::hash(&data).to_base58());
    let mut on_disk = data.clone();
    on_disk[0] ^= 0xFF;
    assert_eq!(m.retrieve_fragment("abc", 1).unwrap(), "fragments/ab/abc");
    assert_eq!(m.check_retrieved("abc", &on_disk, 1), Err(FragmentError::IntegrityCheckFailed));
    assert_eq!(m.retrieve_fragment("abc", 1), Err(FragmentError::NotFound));
    assert_eq!(m.stats_at(1).used_bytes, 0);
}

#[test]
fn expired_fragment_is_deleted_on_retrieval_and_by_cleanup() {
    let now = 5000i64;
    let mut m = StorageManager::new("/tmp/store".to_string(), 1000);
    m.store_fragment("old1", "o", b"x", now - 1, now).unwrap();
    assert_eq!(m.retrieve_fragment("old1", now), Err(FragmentError::Expired));
    assert_eq!(m.retrieve_fragment("old1", now), Err(FragmentError::NotFound));
    m.store_fragment("old2", "o", b"yy", now - 1, now).unwrap();
    m.store_fragment("new1", "o", b"zzz", now + 10, now).unwrap();
    let removed = m.cleanup_expired_at(now);
    assert_eq!(removed.len(), 1);
    assert_eq!(removed[0].fragment_id, "old2");
    let stats = m.stats_at(now);
    assert_eq!(stats.fragment_count, 1);
    assert_eq!(stats.used_bytes, 3);
    assert_eq!(stats.available_bytes, 997);
}

#[test]
fn restoring_an_id_overwrites_and_accounts_space_once() {
    let mut m = StorageManager::new("/tmp/store".to_string(), 10);
    m.store_fragment("id1", "o", &[1; 6], 100, 0).unwrap();
    assert!(!m.has_space(5));
    m.store_fragment("id1", "o", &[2; 4], 100, 0).unwrap();
    assert_eq!(m.available_space(), 6);
    assert!(matches!(m.store_fragment("id2", "o", &[0; 7], 100, 0), Err(FragmentError::InsufficientSpace)));
    assert!(matches!(m.store_fragment("x", "o", &[0; 1], 100, 0), Err(FragmentError::InvalidRequest)));
}

#[test]
fn owner_renewal_stats_and_proofs() {
    let mut m = StorageManager::new("/tmp/store".to_string(), 1000);
    m.store_fragment("aa1", "alice", b"1", 10, 0).unwrap();
    m.store_fragment("aa2", "bob", b"2", 10, 0).unwrap();
    m.store_fragment("aa3", "alice", b"3", 10, 0).unwrap();
    assert_eq!(m.extend_owner_fragments_at("alice", 2, 100), 2);
    let stats = m.stats_at(100);
    assert_eq!(stats.unique_owners, 2);
    assert_eq!(stats.fragments_expiring_soon, 3);
    assert_eq!(m.stats_at(-600_000).fragments_expiring_soon, 1);
    assert!(m.extend_fragment("aa2", 50));
    assert!(!m.extend_fragment("zz9", 50));
    assert_eq!(m.retrieve_fragment("aa2", 60), Err(FragmentError::Expired));
    assert!(m.retrieve_fragment("aa1", 60).is_ok());
    let proof = m.prove_storage("aa1", b"1", b"challenge").unwrap();
    assert_eq!(proof, ContentHash::hash(b"1challenge").as_bytes().to_vec());
    assert_eq!(m.prove_storage("nope", b"1", b"c"), Err(FragmentError::NotFound));
    assert!(StorageManager::verify_storage_proof(&ContentHash::hash(b"1"), b"c", &proof));
    assert!(!StorageManager::verify_storage_proof(&ContentHash::hash(b"1"), b"c", &proof[..31]));
}

#[test]
fn loading_an_index_with_a_repeated_id_is_refused() {
    let mut m = StorageManager::new("/tmp/store".to_string(), 1000);
    let f = m.store_fragment("dup", "o", b"abc", 10, 0).unwrap();
    let g = f.copy_record();
    assert!(!m.load_index(vec![f.copy_record(), g]));
    assert_eq!(m.fragments().len(), 1);
    assert!(m.load_index(vec![f]));
    assert_eq!(m.stats_at(0).used_bytes, 3);
}
