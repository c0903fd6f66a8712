use cloudp2p_core::protocol::StorageContract;

#[test]
fn test_storage_contract() {
    let contract = StorageContract::new(
        "frag-001".to_string(),
        "owner-abc".to_string(),
        "storage-xyz".to_string(),
        1024 * 1024,
        90,
    );

    assert!(!contract.is_expired());
    assert!(contract.days_until_expiration() >= 89);
}

#[test]
fn test_contract_expiration() {
    let mut contract = StorageContract::new(
        "frag-001".to_string(),
        "owner-abc".to_string(),
        "storage-xyz".to_string(),
        1024,
        0,
    );

    contract.expires_at = chrono::Utc::now().timestamp() - 1;
    assert!(contract.is_expired());

    contract.extend(90);
    assert!(!contract.is_expired());
}

#[test]
fn signing_data_joins_six_fields_with_colons() {
    let c = StorageContract::new_at("f".to_string(), "o".to_string(), "s".to_string(), 42, 1, -5);
    assert_eq!(c.created_at, -5);
    assert_eq!(c.expires_at, 86395);
    assert_eq!(c.signing_data(), b"f:o:s:42:-5:86395".to_vec());
}

#[test]
fn extension_moves_expiry_forward_from_now() {
    let mut c = StorageContract::new_at("f".to_string(), "o".to_string(), "s".to_string(), 1, 1, 1000);
    let before = c.expires_at;
    c.extend_at(2, 1000);
    assert!(c.expires_at > before);
    assert_eq!(c.expires_at, before + 2 * 86400);
    let mut late = c.clone();
    late.extend_at(1, before + 10 * 86400);
    assert_eq!(late.expires_at, before + 11 * 86400);
    assert!(!c.is_expired_at(c.expires_at));
    assert!(c.is_expired_at(c.expires_at + 1));
    assert_eq!(c.days_until_expiration_at(c.expires_at - 2 * 86400), 2);
    assert_eq!(c.days_until_expiration_at(c.expires_at + 86401), -1);
}
