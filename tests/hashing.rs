use cloudp2p_core::hashing::{ContentHash, IncrementalHasher, MerkleTree, hash_file_chunked, hash_segments};

#[test]
fn test_content_hash() {
    let data = b"Hello, CloudP2P!";
    let hash = ContentHash::hash(data);

    assert!(hash.verify(data));
    assert!(!hash.verify(b"Different data"));
}

#[test]
fn test_hash_serialization() {
    let hash = ContentHash::hash(b"test data");

    let hex = hash.to_hex();
    let from_hex = ContentHash::from_hex(&hex).unwrap();
    assert_eq!(hash, from_hex);

    let base58 = hash.to_base58();
    let from_base58 = ContentHash::from_base58(&base58).unwrap();
    assert_eq!(hash, from_base58);
}

#[test]
fn test_incremental_hasher() {
    let data = b"Hello, CloudP2P! This is a longer message for testing.";

    let hash1 = ContentHash::hash(data);

    let mut hasher = IncrementalHasher::new();
    hasher.update(&data[..10]);
    hasher.update(&data[10..30]);
    hasher.update(&data[30..]);
    let hash2 = hasher.finalize();

    assert_eq!(hash1, hash2);
}

#[test]
fn test_merkle_tree() {
    let chunks: Vec<&[u8]> = vec![b"chunk 1", b"chunk 2", b"chunk 3", b"chunk 4"];

    let tree = MerkleTree::build(&chunks);

    assert_eq!(tree.leaf_count(), 4);
    assert!(tree.verify_chunk(b"chunk 1", 0));
    assert!(tree.verify_chunk(b"chunk 2", 1));
    assert!(!tree.verify_chunk(b"wrong chunk", 0));
}

#[test]
fn test_merkle_tree_odd_chunks() {
    let chunks: Vec<&[u8]> = vec![b"chunk 1", b"chunk 2", b"chunk 3"];

    let tree = MerkleTree::build(&chunks);

    assert_eq!(tree.leaf_count(), 3);
    assert!(tree.verify_chunk(b"chunk 3", 2));
}

#[test]
fn blake3_of_empty_input_is_the_published_digest() {
    let h = ContentHash::hash(b"");
    assert_eq!(h.to_hex(), "af1349b9f5f9a1a6a0404dea36dcc9499bcb25c9adc112b7cc9a93cae41f3262");
}

#[test]
fn hex_is_lowercase_two_digits_per_byte() {
    let mut bytes = [0u8; 32];
    bytes[0] = 0xAB;
    bytes[31] = 0x01;
    let h = ContentHash::from_bytes(bytes);
    let hex = h.to_hex();
    assert_eq!(hex.len(), 64);
    assert!(hex.starts_with("ab00"));
    assert!(hex.ends_with("0001"));
}

#[test]
fn base58_of_zero_digest_is_all_ones() {
    let h = ContentHash::from_bytes([0u8; 32]);
    assert_eq!(h.to_base58(), "1".repeat(32));
    assert_eq!(ContentHash::from_base58(&"1".repeat(32)).unwrap(), h);
}

#[test]
fn from_hex_refuses_wrong_length_and_bad_digits() {
    assert!(ContentHash::from_hex("abcd").is_err());
    assert!(ContentHash::from_hex("zz").is_err());
    assert!(ContentHash::from_base58("0OIl").is_err());
    assert!(ContentHash::from_base58("2g").is_err());
}

#[test]
fn verify_rejects_one_flipped_bit() {
    let data = b"content addressed".to_vec();
    let h = ContentHash::hash(&data);
    let mut other = data.clone();
    other[0] ^= 1;
    assert!(h.verify(&data));
    assert!(!h.verify(&other));
}

#[test]
fn every_partition_hashes_like_the_whole() {
    let data: Vec<u8> = (0..1000u32).map(|i| (i * 7 % 251) as u8).collect();
    let whole = ContentHash::hash(&data);
    for cs in [1usize, 3, 64, 999, 1000, 5000] {
        assert_eq!(hash_file_chunked(&data, cs), whole);
    }
    let segments = vec![data[..1].to_vec(), Vec::new(), data[1..500].to_vec(), data[500..].to_vec()];
    assert_eq!(hash_segments(&segments), whole);
    let mut h = IncrementalHasher::new();
    h.update(&data[..123]);
    h.update(&data[123..]);
    assert_eq!(h.bytes_processed(), 1000);
    assert_eq!(h.finalize(), whole);
}

#[test]
fn merkle_root_pairs_and_promotes() {
    let a: &[u8] = b"a";
    let b: &[u8] = b"b";
    let c: &[u8] = b"c";
    let ha = ContentHash::hash(a);
    let hb = ContentHash::hash(b);
    let hc = ContentHash::hash(c);
    let mut ab = ha.as_bytes().to_vec();
    ab.extend_from_slice(hb.as_bytes());
    let hab = ContentHash::hash(&ab);
    let mut abc = hab.as_bytes().to_vec();
    abc.extend_from_slice(hc.as_bytes());
    let expected = ContentHash::hash(&abc);
    let tree = MerkleTree::build(&[a, b, c]);
    assert_eq!(tree.root, expected);
    assert_eq!(MerkleTree::build(&[]).root, ContentHash::hash(b""));
    assert_eq!(MerkleTree::build(&[a]).root, ha);
    assert!(!tree.verify_chunk(b"c", 3));
}
