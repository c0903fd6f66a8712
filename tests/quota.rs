use cloudp2p_core::quota::{QuotaCheckResult, QuotaConfig, QuotaManager, UserQuota};

#[test]
fn test_new_user_grace_period() {
    let config = QuotaConfig::default();
    let mut manager = QuotaManager::new(config.clone());

    let result = manager.can_upload("user1", 50 * 1024 * 1024);
    assert!(matches!(result, QuotaCheckResult::Allowed));
}

#[test]
fn test_quota_enforcement() {
    let mut config = QuotaConfig::default();
    config.grace_period_secs = 0;

    let mut manager = QuotaManager::new(config);

    let quota = manager.get_user_quota("user1");
    quota.in_grace_period = false;

    let result = manager.can_upload("user1", 100 * 1024 * 1024);
    assert!(matches!(result, QuotaCheckResult::InsufficientQuota { .. }));

    manager.record_shard_hosted("user1", 200 * 1024 * 1024);

    let result = manager.can_upload("user1", 100 * 1024 * 1024);
    assert!(matches!(result, QuotaCheckResult::Allowed));
}

#[test]
fn test_contribution_ratio() {
    let mut config = QuotaConfig::default();
    config.contribution_ratio_milli = 1500;
    config.grace_period_secs = 0;

    let mut manager = QuotaManager::new(config);

    manager.record_shard_hosted("user1", 150 * 1024 * 1024);

    let quota = manager.get_user_quota("user1");
    quota.in_grace_period = false;

    let result = manager.can_upload("user1", 100 * 1024 * 1024);
    assert!(matches!(result, QuotaCheckResult::Allowed));

    let result = manager.can_upload("user1", 101 * 1024 * 1024);
    assert!(matches!(result, QuotaCheckResult::InsufficientQuota { .. }));
}

#[test]
fn denial_without_contribution_reports_the_missing_amount() {
    let mut config = QuotaConfig::default();
    config.grace_period_secs = 0;
    let mut manager = QuotaManager::new(config);
    manager.can_upload_at("user1", 0, 1000);
    let result = manager.can_upload_at("user1", 100 * 1024, 1001);
    match result {
        QuotaCheckResult::InsufficientQuota { current_contribution, needed_contribution, message } => {
            assert_eq!(current_contribution, 0);
            assert_eq!(needed_contribution, 100 * 1024);
            assert!(message.contains("102400"));
        },
        QuotaCheckResult::Allowed => panic!("expected a denial"),
    }
}

#[test]
fn ratio_one_and_a_half_bounds_uploads() {
    let mut config = QuotaConfig::default();
    config.contribution_ratio_milli = 1500;
    config.grace_period_secs = 10;
    let mut manager = QuotaManager::new(config);
    manager.record_shard_hosted_at("u", 150 * 1024 * 1024, 0);
    assert!(matches!(manager.can_upload_at("u", 100 * 1024 * 1024, 11), QuotaCheckResult::Allowed));
    match manager.can_upload_at("u", 101 * 1024 * 1024, 12) {
        QuotaCheckResult::InsufficientQuota { needed_contribution, .. } => {
            assert_eq!(needed_contribution, 101 * 1024 * 1024 * 3 / 2 - 150 * 1024 * 1024);
        },
        QuotaCheckResult::Allowed => panic!("expected a denial"),
    }
    manager.record_upload_at("u", 100 * 1024 * 1024, 13);
    let summary = manager.get_quota_summary_at("u", 14);
    assert_eq!(summary.bytes_used, 100 * 1024 * 1024);
    assert_eq!(summary.bytes_available, 0);
    assert_eq!(summary.usage_percentage, 100);
    assert!(!summary.in_grace_period);
    assert!(matches!(manager.can_upload_at("u", 1, 15), QuotaCheckResult::InsufficientQuota { .. }));
}

#[test]
fn grace_period_is_a_free_allowance_until_it_expires() {
    let mut config = QuotaConfig::default();
    config.min_contribution = 1000;
    config.grace_period_secs = 100;
    let mut manager = QuotaManager::new(config.clone());
    assert!(matches!(manager.can_upload_at("g", 1000, 50), QuotaCheckResult::Allowed));
    assert!(matches!(manager.can_upload_at("g", 1001, 60), QuotaCheckResult::InsufficientQuota { .. }));
    assert!(matches!(manager.can_upload_at("g", 1000, 150), QuotaCheckResult::Allowed));
    assert!(matches!(manager.can_upload_at("g", 1000, 151), QuotaCheckResult::InsufficientQuota { .. }));
    let mut q = UserQuota::new_at("x".to_string(), 0);
    q.check_grace_period_at(&config, 100);
    assert!(q.in_grace_period);
    q.check_grace_period_at(&config, 101);
    assert!(!q.in_grace_period);
    q.check_grace_period_at(&config, 0);
    assert!(!q.in_grace_period);
}

#[test]
fn recorders_saturate_and_ignore_unknown_users() {
    let mut manager = QuotaManager::new(QuotaConfig::default());
    manager.record_deletion("nobody", 5);
    manager.record_shard_removed("nobody", 5);
    assert_eq!(manager.get_network_stats_at(0).total_users, 0);
    manager.record_upload_at("a", 10, 0);
    manager.record_deletion("a", 50);
    manager.record_shard_hosted_at("a", 7, 0);
    manager.record_shard_removed("a", 3);
    let s = manager.get_quota_summary_at("a", 1);
    assert_eq!(s.bytes_used, 0);
    assert_eq!(s.files_count, 0);
    assert_eq!(s.bytes_contributed, 4);
    assert_eq!(s.shards_hosted, 0);
}

#[test]
fn network_stats_totals_and_activity() {
    let mut manager = QuotaManager::new(QuotaConfig::default());
    manager.record_upload_at("a", 100, 0);
    manager.record_shard_hosted_at("b", 300, 50_000);
    manager.record_shard_hosted_at("a", 100, 0);
    let stats = manager.get_network_stats_at(90_000);
    assert_eq!(stats.total_storage_used, 100);
    assert_eq!(stats.total_storage_contributed, 400);
    assert_eq!(stats.total_users, 2);
    assert_eq!(stats.active_users, 1);
    assert_eq!(stats.average_contribution, 200);
}

#[test]
fn available_storage_and_admission_agree() {
    let mut config = QuotaConfig::default();
    config.max_usage = 500;
    let mut q = UserQuota::new_at("a".to_string(), 0);
    q.in_grace_period = false;
    q.bytes_contributed = 1000;
    q.bytes_used = 200;
    assert_eq!(q.available_storage(&config), 300);
    assert!(q.can_upload(300, &config));
    assert!(!q.can_upload(301, &config));
    assert_eq!(q.usage_percentage(&config), 20);
}

#[test]
fn a_zero_ratio_asks_for_no_contribution() {
    let mut config = QuotaConfig::default();
    config.contribution_ratio_milli = 0;
    config.max_usage = 1000;
    let mut q = UserQuota::new_at("z".to_string(), 0);
    q.in_grace_period = false;
    assert!(q.can_upload(1000, &config));
    assert!(!q.can_upload(1001, &config));
    assert_eq!(q.usage_percentage(&config), 0);
    let mut manager = QuotaManager::new(config);
    manager.record_upload_at("z", 10, 0);
    assert!(matches!(manager.can_upload_at("z", 5000, 1_000_000), QuotaCheckResult::InsufficientQuota { needed_contribution: 0, .. }));
}
