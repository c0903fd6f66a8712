use cloudp2p_core::discovery::{PeerInfo, PeerManager};

fn create_test_peer(id: &str, available: u64, reliability_milli: u32) -> PeerInfo {
    PeerInfo {
        peer_id: id.to_string(),
        addresses: vec![],
        storage_offered: available * 2,
        storage_available: available,
        reliability_milli,
        latency_ms: 100,
        last_seen: chrono::Utc::now().timestamp(),
        behind_nat: false,
        agent_version: "test".to_string(),
    }
}

#[test]
fn test_peer_score() {
    let peer = create_test_peer("test", 1_000_000, 800);
    let score = peer.score();
    assert!(score > 0 && score <= 1_000_000_000);
}

#[test]
fn test_peer_selection() {
    let mut manager = PeerManager::new();

    manager.add_peer(create_test_peer("peer1", 1_000_000, 900));
    manager.add_peer(create_test_peer("peer2", 2_000_000, 700));
    manager.add_peer(create_test_peer("peer3", 500_000, 500));
    manager.add_peer(create_test_peer("peer4", 1_000_000, 200));

    let selected = manager.select_storage_peers(500_000, 3);

    assert_eq!(selected.len(), 3);
    assert_eq!(selected[0].peer_id, "peer1");
}

#[test]
fn test_blacklist() {
    let mut manager = PeerManager::new();
    manager.add_peer(create_test_peer("bad_peer", 1_000_000, 900));

    manager.blacklist_peer("bad_peer", 3600);

    assert!(manager.is_blacklisted("bad_peer"));
    assert_eq!(manager.select_storage_peers(500_000, 10).len(), 0);
}

#[test]
fn score_is_the_weighted_sum() {
    let mut p = create_test_peer("p", 500, 900);
    assert_eq!(p.score(), 360_000_000 + 270_000_000 + 150_000_000);
    p.latency_ms = 5000;
    p.storage_offered = 0;
    assert_eq!(p.score(), 360_000_000);
}

#[test]
fn selection_sorts_by_score_and_excludes_the_unreliable() {
    let now = 1_000_000i64;
    let mut manager = PeerManager::new();
    for (id, r) in [("a", 500u32), ("b", 900), ("c", 200), ("d", 700)] {
        let mut p = create_test_peer(id, 1_000_000, r);
        p.last_seen = now;
        manager.add_peer_at(p, now);
    }
    let selected = manager.select_storage_peers_at(500_000, 3, now);
    let ids: Vec<&str> = selected.iter().map(|p| p.peer_id.as_str()).collect();
    assert_eq!(ids, vec!["b", "d", "a"]);
    let all = manager.select_storage_peers_at(500_000, 10, now);
    assert_eq!(all.len(), 3);
    assert_eq!(manager.select_storage_peers_at(2_000_000, 10, now).len(), 0);
}

#[test]
fn ties_keep_the_order_of_first_sight_and_stale_peers_drop_out() {
    let now = 10_000i64;
    let mut manager = PeerManager::new();
    manager.add_peer_at(create_test_peer("x", 100, 600), now - 4000);
    manager.add_peer_at(create_test_peer("y", 100, 600), now);
    manager.add_peer_at(create_test_peer("z", 100, 600), now);
    let ids: Vec<String> = manager.select_storage_peers_at(1, 5, now).iter().map(|p| p.peer_id.clone()).collect();
    assert_eq!(ids, vec!["y".to_string(), "z".to_string()]);
    assert_eq!(manager.healthy_peer_count_at(now), 2);
    assert_eq!(manager.total_available_storage_at(now), 200);
    manager.prune_stale_at(now);
    assert_eq!(manager.peer_count(), 2);
    assert!(manager.get_peer("x").is_none());
}

#[test]
fn low_reliability_blacklists_for_an_hour() {
    let now = 50_000i64;
    let mut manager = PeerManager::new();
    manager.add_peer_at(create_test_peer("p", 100, 250), now);
    manager.update_reliability_at("p", -200, now);
    assert_eq!(manager.get_peer("p").unwrap().reliability_milli, 50);
    assert!(manager.is_blacklisted_at("p", now + 3599));
    assert!(!manager.is_blacklisted_at("p", now + 3600));
    manager.update_reliability_at("p", 5000, now);
    assert_eq!(manager.get_peer("p").unwrap().reliability_milli, 1000);
    manager.prune_stale_at(now + 3600);
    assert!(!manager.is_blacklisted_at("p", now + 10));
}
