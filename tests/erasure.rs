use cloudp2p_core::erasure::{EncodedFile, ErasureConfig, ErasureDecoder, ErasureEncoder, Shard};
use cloudp2p_core::storage::StorageError;

#[test]
fn test_erasure_config() {
    let config = ErasureConfig::default();

    assert_eq!(config.data_shards, 10);
    assert_eq!(config.parity_shards, 4);
    assert_eq!(config.total_shards(), 14);
    assert_eq!(config.min_shards(), 10);
    assert_eq!(config.max_losses(), 4);
}

#[test]
fn test_encode_decode_no_loss() {
    let config = ErasureConfig::new(4, 2);
    let encoder = ErasureEncoder::new(config).unwrap();
    let decoder = ErasureDecoder::new(config).unwrap();

    let original = b"Hello, CloudP2P! This is test data for erasure coding.";
    let shards = encoder.encode(original).unwrap();

    assert_eq!(shards.len(), 6);
    assert_eq!(shards.iter().filter(|s| s.is_parity).count(), 2);

    let shard_opts: Vec<Option<Shard>> = shards.into_iter().map(Some).collect();
    let decoded = decoder.decode(shard_opts, original.len()).unwrap();

    assert_eq!(decoded, original.to_vec());
}

#[test]
fn test_encode_decode_with_loss() {
    let config = ErasureConfig::new(4, 2);
    let encoder = ErasureEncoder::new(config).unwrap();
    let decoder = ErasureDecoder::new(config).unwrap();

    let original = b"Hello, CloudP2P! This is test data for erasure coding.";
    let shards = encoder.encode(original).unwrap();

    let mut shard_opts: Vec<Option<Shard>> = shards.into_iter().map(Some).collect();
    shard_opts[1] = None;
    shard_opts[3] = None;

    let decoded = decoder.decode(shard_opts, original.len()).unwrap();

    assert_eq!(decoded, original.to_vec());
}

#[test]
fn test_too_many_losses() {
    let config = ErasureConfig::new(4, 2);
    let encoder = ErasureEncoder::new(config).unwrap();
    let decoder = ErasureDecoder::new(config).unwrap();

    let original = b"Hello, CloudP2P!";
    let shards = encoder.encode(original).unwrap();

    let mut shard_opts: Vec<Option<Shard>> = shards.into_iter().map(Some).collect();
    shard_opts[0] = None;
    shard_opts[2] = None;
    shard_opts[4] = None;

    let result = decoder.decode(shard_opts, original.len());

    assert!(result.is_err());
}

#[test]
fn test_large_data() {
    let config = ErasureConfig::default();
    let encoder = ErasureEncoder::new(config).unwrap();
    let decoder = ErasureDecoder::new(config).unwrap();

    let original: Vec<u8> = (0..1_000_000).map(|i| (i % 256) as u8).collect();
    let shards = encoder.encode(&original).unwrap();

    let mut shard_opts: Vec<Option<Shard>> = shards.into_iter().map(Some).collect();
    shard_opts[0] = None;
    shard_opts[5] = None;
    shard_opts[10] = None;
    shard_opts[13] = None;

    let decoded = decoder.decode(shard_opts, original.len()).unwrap();

    assert_eq!(decoded, original);
}

#[test]
fn encode_pads_the_last_data_shard_with_zeros() {
    let encoder = ErasureEncoder::new(ErasureConfig::new(3, 2)).unwrap();
    let shards = encoder.encode(&[1, 2, 3, 4, 5, 6, 7]).unwrap();
    assert_eq!(shards.len(), 5);
    assert_eq!(shards[0].data, vec![1, 2, 3]);
    assert_eq!(shards[1].data, vec![4, 5, 6]);
    assert_eq!(shards[2].data, vec![7, 0, 0]);
    for (i, s) in shards.iter().enumerate() {
        assert_eq!(s.index, i);
        assert_eq!(s.is_parity, i >= 3);
        assert_eq!(s.data.len(), 3);
        assert_eq!(s.original_size, 3);
    }
    assert_ne!(shards[3].data, vec![0, 0, 0]);
}

#[test]
fn invalid_configurations_and_empty_data_are_refused() {
    assert!(matches!(ErasureEncoder::new(ErasureConfig::new(0, 2)), Err(StorageError::ErasureCoding(_))));
    assert!(ErasureEncoder::new(ErasureConfig::new(2, 0)).is_err());
    assert!(ErasureDecoder::new(ErasureConfig::new(200, 57)).is_err());
    assert!(ErasureDecoder::new(ErasureConfig::new(200, 56)).is_ok());
    let encoder = ErasureEncoder::new(ErasureConfig::new(2, 1)).unwrap();
    assert!(matches!(encoder.encode(&[]), Err(StorageError::ErasureCoding(_))));
}

#[test]
fn every_erasure_of_at_most_m_shards_decodes() {
    let config = ErasureConfig::new(3, 2);
    let encoder = ErasureEncoder::new(config).unwrap();
    let decoder = ErasureDecoder::new(config).unwrap();
    let original: Vec<u8> = (0..100u8).collect();
    let shards = encoder.encode(&original).unwrap();
    for mask in 0u32..32 {
        let erased = mask.count_ones();
        let opts: Vec<Option<Shard>> =
            shards.iter().enumerate().map(|(i, s)| if mask & (1 << i) != 0 { None } else { Some(s.clone()) }).collect();
        let result = decoder.decode(opts, original.len());
        if erased <= 2 {
            assert_eq!(result.unwrap(), original);
        } else {
            let have = 5 - erased as usize;
            assert!(matches!(result, Err(StorageError::InsufficientFragments { have: h, need: 3 }) if h == have));
        }
    }
}

#[test]
fn decode_refuses_a_wrong_shard_count() {
    let decoder = ErasureDecoder::new(ErasureConfig::new(2, 1)).unwrap();
    assert!(matches!(decoder.decode(vec![None, None], 4), Err(StorageError::ErasureCoding(_))));
}

#[test]
fn verify_checks_parity() {
    let config = ErasureConfig::new(2, 2);
    let encoder = ErasureEncoder::new(config).unwrap();
    let decoder = ErasureDecoder::new(config).unwrap();
    let shards = encoder.encode(b"parity check").unwrap();
    let mut datas: Vec<Vec<u8>> = shards.iter().map(|s| s.data.clone()).collect();
    assert!(decoder.verify(&datas).unwrap());
    datas[3][0] ^= 0xFF;
    assert!(!decoder.verify(&datas).unwrap());
    assert!(decoder.verify(&datas[..3]).is_err());
}

#[test]
fn shard_ids_and_total_size() {
    let encoder = ErasureEncoder::new(ErasureConfig::new(10, 4)).unwrap();
    let shards = encoder.encode(&[9u8; 95]).unwrap();
    assert_eq!(shards[3].id("abc"), "abc-shard-03");
    assert_eq!(shards[12].id("abc"), "abc-shard-12");
    let file = EncodedFile { file_hash: "f".to_string(), original_size: 95, config: ErasureConfig::new(10, 4), shards };
    let ids = file.shard_ids();
    assert_eq!(ids.len(), 14);
    assert_eq!(ids[0], "f-shard-00");
    assert_eq!(file.total_size(), 14 * 10);
}
