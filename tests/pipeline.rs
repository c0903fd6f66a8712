use cloudp2p_core::erasure::ErasureConfig;
use cloudp2p_core::file_manager::FileManager;
use cloudp2p_core::hashing::ContentHash;
use cloudp2p_core::identity::UserIdentity;
use cloudp2p_core::storage::StorageError;

const PHRASE: &str = "abandon abandon abandon abandon abandon abandon abandon abandon abandon abandon abandon about";

fn create_test_identity() -> UserIdentity {
    UserIdentity::generate(Some("test")).unwrap().0
}

#[test]
fn test_prepare_upload() {
    let identity = create_test_identity();
    let data = b"Hello, CloudP2P! This is a test file.";

    let manager = FileManager::new(identity, "/tmp/cache".to_string());

    let prepared = manager.prepare_upload(data, "test.txt", 0).unwrap();

    assert_eq!(prepared.metadata.filename, "test.txt");
    assert_eq!(prepared.shards.len(), 14);
    assert!(prepared.metadata.size > 0);
}

#[test]
fn test_full_cycle() {
    let identity = create_test_identity();
    let original_data = b"Hello, CloudP2P! This is a test file for full cycle testing.";

    let manager = FileManager::new(identity, "/tmp/cache".to_string());

    let prepared = manager.prepare_upload(original_data, "test.txt", 0).unwrap();

    let shard_data: Vec<Option<Vec<u8>>> = prepared.shards.iter().map(|s| Some(s.data.clone())).collect();

    let reconstructed = manager.reconstruct_file(&prepared.metadata, shard_data).unwrap();

    assert_eq!(reconstructed, original_data.to_vec());
}

#[test]
fn test_reconstruct_with_missing_shards() {
    let identity = create_test_identity();
    let original_data: Vec<u8> = (0..10000).map(|i| (i % 256) as u8).collect();

    let manager = FileManager::new(identity, "/tmp/cache".to_string());

    let prepared = manager.prepare_upload(&original_data, "test.bin", 0).unwrap();

    let mut shard_data: Vec<Option<Vec<u8>>> = prepared.shards.iter().map(|s| Some(s.data.clone())).collect();

    shard_data[0] = None;
    shard_data[3] = None;
    shard_data[7] = None;
    shard_data[12] = None;

    let reconstructed = manager.reconstruct_file(&prepared.metadata, shard_data).unwrap();

    assert_eq!(reconstructed, original_data);
}

#[test]
fn end_to_end_single_peer() {
    let a = UserIdentity::from_seed_phrase(PHRASE, Some("pw")).unwrap();
    let b = UserIdentity::from_seed_phrase(PHRASE, Some("pw")).unwrap();
    assert_eq!(a.public_id(), b.public_id());
    let data = vec![b'x'; 500];
    let uploader = FileManager::new(a, "/tmp/cache".to_string()).with_erasure_config(ErasureConfig::new(10, 4));
    let prepared = uploader.prepare_upload(&data, "x.bin", 1_700_000_000).unwrap();
    let md = &prepared.metadata;
    assert_eq!(md.file_id, ContentHash::hash(&data).to_base58());
    assert_eq!(md.owner_id, b.public_id());
    assert_eq!(md.shards.len(), 14);
    for (i, loc) in md.shards.iter().enumerate() {
        assert_eq!(loc.index, i);
        assert_eq!(loc.shard_id, format!("{}-shard-{:02}", md.file_id, i));
        assert_eq!(loc.hash, ContentHash::hash(&prepared.shards[i].data).to_base58());
        assert!(loc.peers.is_empty());
    }
    let pairs = prepared.shard_data();
    assert_eq!(pairs.len(), 14);
    assert_eq!(pairs[5].0, md.shards[5].shard_id);
    assert_eq!(prepared.get_shard(13).unwrap().index, 13);
    assert!(prepared.get_shard(14).is_none());
    let mut shard_data: Vec<Option<Vec<u8>>> = prepared.shards.iter().map(|s| Some(s.data.clone())).collect();
    for i in [0, 3, 7, 12] {
        shard_data[i] = None;
    }
    let downloader = FileManager::new(b, "/tmp/cache".to_string());
    assert_eq!(downloader.reconstruct_file(md, shard_data).unwrap(), data);
}

#[test]
fn too_few_shards_and_wrong_content_are_reported() {
    let identity = UserIdentity::from_seed_phrase(PHRASE, None).unwrap();
    let manager = FileManager::new(identity, "/tmp/cache".to_string()).with_erasure_config(ErasureConfig::new(2, 1));
    let prepared = manager.prepare_upload(b"some file", "f.txt", 0).unwrap();
    let only_one = vec![Some(prepared.shards[0].data.clone()), None, None];
    assert_eq!(
        manager.reconstruct_file(&prepared.metadata, only_one),
        Err(StorageError::InsufficientFragments { have: 1, need: 2 })
    );
    let mut md = prepared.metadata.clone();
    md.file_id = ContentHash::hash(b"another file").to_base58();
    let all: Vec<Option<Vec<u8>>> = prepared.shards.iter().map(|s| Some(s.data.clone())).collect();
    assert_eq!(manager.reconstruct_file(&md, all), Err(StorageError::IntegrityCheckFailed));
    let bad = FileManager::new(UserIdentity::from_seed_phrase(PHRASE, None).unwrap(), "/c".to_string())
        .with_erasure_config(ErasureConfig::new(0, 1));
    assert!(bad.prepare_upload(b"x", "x", 0).is_err());
}

#[test]
fn mime_type_comes_from_the_extension() {
    let manager = FileManager::new(UserIdentity::from_seed_phrase(PHRASE, None).unwrap(), "/c".to_string());
    assert_eq!(manager.prepare_upload(b"hello", "notes.txt", 0).unwrap().metadata.mime_type, "text/plain");
    assert_eq!(manager.prepare_upload(b"hello", "blob.unknownext", 0).unwrap().metadata.mime_type, "application/octet-stream");
}

#[test]
fn index_add_get_search_remove() {
    let identity = UserIdentity::from_seed_phrase(PHRASE, None).unwrap();
    let mut manager = FileManager::new(identity, "/c".to_string()).with_erasure_config(ErasureConfig::new(2, 1));
    let mut a = manager.prepare_upload(b"aaa", "Report.PDF", 0).unwrap().metadata;
    a.tags = vec!["Work".to_string()];
    a.folder_id = Some("docs".to_string());
    let b = manager.prepare_upload(b"bbbb", "holiday.jpg", 0).unwrap().metadata;
    manager.add_to_index(a.clone());
    manager.add_to_index(b.clone());
    manager.add_to_index(a.clone());
    assert_eq!(manager.file_count(), 2);
    assert_eq!(manager.total_storage_used(), 7);
    assert_eq!(manager.get_metadata(&a.file_id).unwrap().filename, "Report.PDF");
    assert_eq!(manager.list_files().len(), 2);
    assert_eq!(manager.list_folder(Some("docs")).len(), 1);
    assert_eq!(manager.list_folder(None).len(), 1);
    assert_eq!(manager.search("report").len(), 1);
    assert_eq!(manager.search("WORK").len(), 1);
    assert_eq!(manager.search("JPG").len(), 1);
    assert_eq!(manager.search("zzz").len(), 0);
    assert_eq!(manager.remove_from_index(&b.file_id).unwrap().filename, "holiday.jpg");
    assert!(manager.remove_from_index(&b.file_id).is_none());
    assert_eq!(manager.file_count(), 1);
}
