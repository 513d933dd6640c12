use snarkos_bft::{
    block_locators_of, dummy_self_ip, BlockLocators, BlockSync, BlockSyncMode, LocatorError,
    PeerAddr,
};

fn peer(port: u16) -> PeerAddr {
    PeerAddr { ip: 0x0a000001, port }
}

#[test]
fn block_sync_mode_predicates() {
    assert!(BlockSyncMode::Router.is_router());
    assert!(!BlockSyncMode::Router.is_gateway());
    assert!(BlockSyncMode::Gateway.is_gateway());
    assert!(!BlockSyncMode::Gateway.is_router());
}

#[test]
fn locator_fork_detection() {
    // Canonical chain: h0 = 100, h1 = 101, h2 = 102. Peer A forks at height 2.
    let canon = vec![100u64, 101, 102];
    let mut sync = BlockSync::new(BlockSyncMode::Gateway);
    let a = peer(1);
    let locators = BlockLocators::new(vec![(0, 100), (1, 101), (2, 999)], vec![(0, 100)]).unwrap();
    assert_eq!(sync.update_peer_locators(a, locators, &canon), Ok(()));
    assert_eq!(sync.get_common_ancestor(dummy_self_ip(), a), Some(1));
    assert_eq!(sync.get_peer_height(a), Some(2));
}

#[test]
fn common_ancestor_is_last_shared_height() {
    // Shared prefix of heights 0..=3, divergence at height 4.
    let canon = vec![10u64, 11, 12, 13, 14, 15];
    let mut sync = BlockSync::new(BlockSyncMode::Router);
    let a = peer(2);
    let locators = BlockLocators::new(
        vec![(0, 10), (1, 11), (2, 12), (3, 13), (4, 77), (5, 15)],
        vec![(0, 10)],
    )
    .unwrap();
    sync.update_peer_locators(a, locators, &canon).unwrap();
    // The rejoin at height 5 gives no credit past the fork.
    assert_eq!(sync.get_common_ancestor(dummy_self_ip(), a), Some(3));
}

#[test]
fn common_ancestor_between_peers() {
    let canon = vec![10u64, 11, 12];
    let mut sync = BlockSync::new(BlockSyncMode::Router);
    let a = peer(1);
    let b = peer(2);
    let la = BlockLocators::new(vec![(0, 10), (1, 11), (2, 12)], vec![(0, 10)]).unwrap();
    let lb = BlockLocators::new(vec![(0, 10), (1, 11), (2, 50), (3, 51)], vec![(0, 10)]).unwrap();
    sync.update_peer_locators(a, la, &canon).unwrap();
    sync.update_peer_locators(b, lb, &canon).unwrap();
    // Computed over A's locators, against B's hashes.
    assert_eq!(sync.get_common_ancestor(b, a), Some(1));
    assert_eq!(sync.get_common_ancestor(dummy_self_ip(), b), Some(1));
    assert_eq!(sync.get_common_ancestor(dummy_self_ip(), a), Some(2));
}

#[test]
fn identical_locators_change_nothing() {
    let canon = vec![10u64, 11];
    let mut sync = BlockSync::new(BlockSyncMode::Router);
    let a = peer(1);
    let l1 = BlockLocators::new(vec![(0, 10), (1, 11)], vec![(0, 10)]).unwrap();
    let l2 = BlockLocators::new(vec![(0, 10), (1, 11)], vec![(0, 10)]).unwrap();
    sync.update_peer_locators(a, l1, &canon).unwrap();
    assert_eq!(sync.update_peer_locators(a, l2, &canon), Ok(()));
    assert_eq!(sync.get_common_ancestor(dummy_self_ip(), a), Some(1));
}

#[test]
fn malformed_locators_are_refused() {
    assert_eq!(BlockLocators::new(vec![], vec![(0, 1)]).unwrap_err(), LocatorError::InvalidRecents);
    assert_eq!(BlockLocators::new(vec![(0, 1), (2, 3)], vec![(0, 1)]).unwrap_err(), LocatorError::InvalidRecents);
    assert_eq!(BlockLocators::new(vec![(0, 1)], vec![]).unwrap_err(), LocatorError::InvalidCheckpoints);
    assert_eq!(BlockLocators::new(vec![(5, 1)], vec![(1, 1)]).unwrap_err(), LocatorError::InvalidCheckpoints);
    assert_eq!(BlockLocators::new(vec![(0, 1), (1, 2)], vec![(0, 9)]).unwrap_err(), LocatorError::InconsistentHashes);
    let too_many: Vec<(u32, u64)> = (0..101u32).map(|h| (h, h as u64)).collect();
    assert_eq!(BlockLocators::new(too_many, vec![(0, 0)]).unwrap_err(), LocatorError::InvalidRecents);
}

#[test]
fn block_locators_of_short_chain() {
    let canon = vec![5u64, 6, 7, 8, 9];
    let l = block_locators_of(&canon);
    assert_eq!(l.entries(), vec![(0, 5), (1, 6), (2, 7), (3, 8), (4, 9)]);
    assert!(l.ensure_is_valid().is_ok());
    assert_eq!(l.latest_locator_height(), 4);
    assert_eq!(l.get_hash(3), Some(8));
    assert_eq!(l.get_hash(9), None);
}

#[test]
fn block_locators_of_long_chain() {
    let canon: Vec<u64> = (0..10_150u64).map(|h| h * 3).collect();
    let l = block_locators_of(&canon);
    assert!(l.ensure_is_valid().is_ok());
    let entries = l.entries();
    // Checkpoint 0 and 10000 sit below the first recent height (10050).
    assert_eq!(entries[0], (0, 0));
    assert_eq!(entries[1], (10_000, 30_000));
    assert_eq!(entries[2], (10_050, 30_150));
    assert_eq!(entries.len(), 102);
    assert_eq!(l.latest_locator_height(), 10_149);
}

#[test]
fn remove_peer_drops_locators_and_keeps_ancestors() {
    let canon = vec![10u64, 11];
    let mut sync = BlockSync::new(BlockSyncMode::Router);
    let a = peer(1);
    let l = BlockLocators::new(vec![(0, 10), (1, 11)], vec![(0, 10)]).unwrap();
    sync.update_peer_locators(a, l, &canon).unwrap();
    sync.remove_peer(a);
    assert_eq!(sync.get_peer_height(a), None);
    assert_eq!(sync.get_common_ancestor(dummy_self_ip(), a), Some(1));
}

#[test]
fn block_sync_status() {
    let canon = vec![10u64, 11];
    let mut sync = BlockSync::new(BlockSyncMode::Router);
    let l = BlockLocators::new(vec![(0, 10), (1, 11), (2, 12), (3, 13)], vec![(0, 10)]).unwrap();
    sync.update_peer_locators(peer(1), l, &canon).unwrap();
    sync.try_block_sync(1);
    assert_eq!(sync.num_blocks_behind(), 2);
    assert!(!sync.is_block_synced());
    sync.try_block_sync(2);
    assert!(sync.is_block_synced());
    sync.update_is_block_synced(10, 5, 0);
    assert_eq!(sync.num_blocks_behind(), 0);
    assert!(sync.is_block_synced());
}

#[test]
fn block_sync_builds_own_locators() {
    let sync = BlockSync::new(BlockSyncMode::Gateway);
    assert_eq!(sync.mode(), BlockSyncMode::Gateway);
    let l = sync.get_block_locators(&vec![1u64, 2, 3]);
    assert_eq!(l.entries(), vec![(0, 1), (1, 2), (2, 3)]);
}
