use rossip::addr::PeerAddr;
use rossip::peer::{Peer, PeerList};

fn alice() -> PeerAddr {
    PeerAddr::new(10, 0, 0, 2, 9487)
}

fn bob() -> PeerAddr {
    PeerAddr::new(10, 0, 0, 3, 9487)
}

fn peer(addr: PeerAddr, name: &str, last_seen: u64) -> Peer {
    Peer { addr, display_name: name.to_string(), last_seen }
}

#[test]
fn new_registry_is_empty() {
    let registry = PeerList::new();
    assert!(registry.is_empty());
    assert_eq!(registry.len(), 0);
    assert_eq!(registry.get_peers(), vec![]);
    assert!(!registry.contains(&alice()));
    assert_eq!(registry.get(&alice()), None);
}

#[test]
fn registering_twice_leaves_one_entry_with_the_second_instant() {
    let mut registry = PeerList::new();
    registry.add_or_update_peer(alice(), "n".to_string(), 100);
    registry.add_or_update_peer(alice(), "n".to_string(), 101);
    assert_eq!(registry.get_peers(), vec![peer(alice(), "n", 101)]);
    assert_eq!(registry.len(), 1);
}

#[test]
fn registering_again_replaces_the_name() {
    let mut registry = PeerList::new();
    registry.add_or_update_peer(alice(), "10.0.0.2:9487".to_string(), 5);
    registry.add_or_update_peer(bob(), "bob".to_string(), 6);
    registry.add_or_update_peer(alice(), "alice".to_string(), 7);
    assert_eq!(registry.get_peers(), vec![peer(alice(), "alice", 7), peer(bob(), "bob", 6)]);
    assert_eq!(registry.get(&alice()), Some(peer(alice(), "alice", 7)));
    assert_eq!(registry.get(&bob()), Some(peer(bob(), "bob", 6)));
}

#[test]
fn refreshing_tells_new_from_known() {
    let mut registry = PeerList::new();
    assert!(!registry.update_last_seen(&alice(), 1));
    assert!(registry.is_empty());
    assert!(!registry.update_last_seen(&alice(), 2));
    assert!(registry.is_empty());
    registry.add_or_update_peer(alice(), "alice".to_string(), 3);
    assert!(registry.update_last_seen(&alice(), 4));
    assert!(registry.update_last_seen(&alice(), 5));
    assert!(registry.update_last_seen(&alice(), 6));
    assert!(!registry.update_last_seen(&bob(), 7));
    assert_eq!(registry.get_peers(), vec![peer(alice(), "alice", 6)]);
}

#[test]
fn refreshing_keeps_the_name() {
    let mut registry = PeerList::new();
    registry.add_or_update_peer(alice(), "alice".to_string(), 3);
    registry.add_or_update_peer(bob(), "bob".to_string(), 3);
    assert!(registry.update_last_seen(&bob(), 9));
    assert_eq!(registry.get_peers(), vec![peer(alice(), "alice", 3), peer(bob(), "bob", 9)]);
}

#[test]
fn snapshot_is_a_copy() {
    let mut registry = PeerList::new();
    registry.add_or_update_peer(alice(), "alice".to_string(), 3);
    let mut snapshot = registry.get_peers();
    snapshot[0].display_name.push_str(" changed");
    snapshot.clear();
    registry.add_or_update_peer(bob(), "bob".to_string(), 4);
    assert_eq!(snapshot.len(), 0);
    assert_eq!(registry.get_peers(), vec![peer(alice(), "alice", 3), peer(bob(), "bob", 4)]);
}

#[test]
fn pruning_removes_exactly_the_stale_peer() {
    let now = 1000;
    let mut registry = PeerList::new();
    registry.add_or_update_peer(alice(), "alice".to_string(), now - 1);
    registry.add_or_update_peer(bob(), "bob".to_string(), now - 100);
    registry.prune_stale(now, 30);
    assert_eq!(registry.get_peers(), vec![peer(alice(), "alice", now - 1)]);
    assert!(registry.contains(&alice()));
    assert!(!registry.contains(&bob()));
}

#[test]
fn pruning_keeps_a_peer_that_is_exactly_ttl_old() {
    let mut registry = PeerList::new();
    registry.add_or_update_peer(alice(), "alice".to_string(), 70);
    registry.add_or_update_peer(bob(), "bob".to_string(), 69);
    registry.prune_stale(100, 30);
    assert_eq!(registry.get_peers(), vec![peer(alice(), "alice", 70)]);
}

#[test]
fn pruning_keeps_a_peer_seen_after_now() {
    let mut registry = PeerList::new();
    registry.add_or_update_peer(alice(), "alice".to_string(), 500);
    registry.prune_stale(100, 0);
    assert_eq!(registry.get_peers(), vec![peer(alice(), "alice", 500)]);
    registry.prune_stale(500, 0);
    assert_eq!(registry.len(), 1);
    registry.prune_stale(501, 0);
    assert!(registry.is_empty());
}

#[test]
fn pruning_keeps_the_order_of_the_rest() {
    let mut registry = PeerList::new();
    for i in 0..10u8 {
        let last_seen = if i % 3 == 0 { 10 } else { 90 };
        registry.add_or_update_peer(PeerAddr::new(10, 0, 0, i, 1), i.to_string(), last_seen);
    }
    registry.prune_stale(100, 30);
    let left: Vec<u8> = registry.get_peers().iter().map(|p| p.addr.d).collect();
    assert_eq!(left, vec![1, 2, 4, 5, 7, 8]);
}

#[test]
fn pruning_at_the_ends_of_the_clock() {
    let mut registry = PeerList::new();
    registry.add_or_update_peer(alice(), "alice".to_string(), 0);
    registry.add_or_update_peer(bob(), "bob".to_string(), u64::MAX);
    registry.prune_stale(u64::MAX, u64::MAX);
    assert_eq!(registry.len(), 2);
    registry.prune_stale(u64::MAX, u64::MAX - 1);
    assert_eq!(registry.get_peers(), vec![peer(bob(), "bob", u64::MAX)]);
}

#[test]
fn a_pruned_peer_is_new_again() {
    let mut registry = PeerList::new();
    registry.add_or_update_peer(alice(), "alice".to_string(), 0);
    registry.prune_stale(100, 30);
    assert!(!registry.update_last_seen(&alice(), 101));
    registry.add_or_update_peer(alice(), "alice".to_string(), 102);
    assert!(registry.update_last_seen(&alice(), 103));
}

#[test]
fn peer_clone_is_equal() {
    let p = peer(alice(), "alice", 7);
    assert_eq!(p.clone(), p);
}
