use snarkos_bft::{
    bootnodes_to_connect, is_round_quorum_reached, latest_round_with_certificate_from,
    missing_previous_certificate_ids, missing_transmission_ids, propagation_targets,
    BatchCertificate, BatchHeader, Committee, Ledger, Payload, PeerAddr, Primary, Storage,
    SyncError, Transmission, TransmissionId,
};

fn ledger4() -> Ledger {
    Ledger::new(0, vec![Committee::new(1, 0, vec![(1, 10), (2, 10), (3, 10), (4, 10)]).unwrap()]).unwrap()
}

fn header(batch_id: u64, author: u64, round: u64, tids: Vec<TransmissionId>, previous: Vec<u64>) -> BatchHeader {
    BatchHeader { batch_id, author, round, timestamp: 0, committee_id: 1, transmission_ids: tids, previous_certificate_ids: previous }
}

fn cert(certificate_id: u64, author: u64, round: u64, tids: Vec<TransmissionId>, previous: Vec<u64>) -> BatchCertificate {
    BatchCertificate { certificate_id, header: header(certificate_id + 100, author, round, tids, previous), signers: vec![] }
}

fn solution(id: u64, checksum: u128) -> (TransmissionId, Transmission) {
    (TransmissionId::solution(id, checksum), Transmission::Solution(Payload { id, checksum, is_fee: false, bytes: vec![9] }))
}

#[test]
fn missing_previous_certificates() {
    let mut storage = Storage::new(1, 10);
    storage.insert_certificate(cert(1, 1, 1, vec![], vec![]), vec![]).unwrap();
    let ledger = ledger4();
    let h = header(50, 2, 2, vec![], vec![1, 2, 3]);
    assert_eq!(missing_previous_certificate_ids(&storage, &ledger, &h), vec![2, 3]);
    // Round 1 has no previous certificates to fetch.
    let h1 = header(51, 2, 1, vec![], vec![7]);
    assert!(missing_previous_certificate_ids(&storage, &ledger, &h1).is_empty());
}

#[test]
fn missing_transmissions_of_header() {
    let mut storage = Storage::new(1, 10);
    let (a, ta) = solution(1, 10);
    let (b, _) = solution(2, 20);
    storage.insert_certificate(cert(1, 1, 1, vec![a], vec![]), vec![(a, ta)]).unwrap();
    let h = header(60, 2, 1, vec![a, b], vec![]);
    assert_eq!(missing_transmission_ids(&storage, &h), vec![b]);
    // A batch already stored needs nothing.
    let stored = header(101, 1, 1, vec![a, b], vec![]);
    assert!(missing_transmission_ids(&storage, &stored).is_empty());
}

#[test]
fn round_quorum_and_latest_own_certificate() {
    let mut storage = Storage::new(1, 10);
    let mut ledger = ledger4();
    for author in 1..=3u64 {
        storage.insert_certificate(cert(author, author, 1, vec![], vec![]), vec![]).unwrap();
    }
    assert_eq!(is_round_quorum_reached(&storage, &mut ledger, 1), Ok(true));
    assert_eq!(is_round_quorum_reached(&storage, &mut ledger, 2), Ok(false));
    storage.increment_to_next_round(1);
    storage.increment_to_next_round(2);
    assert_eq!(latest_round_with_certificate_from(&storage, 2), Some(1));
    assert_eq!(latest_round_with_certificate_from(&storage, 4), None);
}

#[test]
fn certificates_from_peers() {
    let mut storage = Storage::new(5, 2);
    let mut ledger = ledger4();
    let mut primary = Primary::new(1);
    // At or below the GC round (3): skipped.
    assert_eq!(primary.sync_with_certificate(&mut storage, &mut ledger, cert(1, 2, 3, vec![], vec![]), vec![], false, true), Ok(false));
    // The node is syncing.
    assert_eq!(primary.sync_with_certificate(&mut storage, &mut ledger, cert(2, 2, 4, vec![], vec![]), vec![], false, false), Err(SyncError::NotSynced));
    let (a, ta) = solution(1, 10);
    assert_eq!(primary.sync_with_certificate(&mut storage, &mut ledger, cert(3, 2, 4, vec![a], vec![]), vec![(a, ta)], false, true), Ok(true));
    assert!(storage.contains_transmission(a));
    // Already stored: skipped.
    assert_eq!(primary.sync_with_certificate(&mut storage, &mut ledger, cert(3, 2, 4, vec![a], vec![]), vec![], false, true), Ok(false));
    // A certificate far ahead moves the round forward.
    assert_eq!(primary.sync_with_certificate(&mut storage, &mut ledger, cert(4, 3, 20, vec![], vec![]), vec![], true, false), Ok(true));
    assert_eq!(storage.current_round(), 6);
}

#[test]
fn missing_transmissions_come_from_workers() {
    let storage = Storage::new(1, 10);
    let ledger = ledger4();
    let mut primary = Primary::new(1);
    primary.process_unconfirmed_solution(1, Payload { id: 1, checksum: 10, is_fee: false, bytes: vec![1] }, true, &storage, &ledger).unwrap();
    let (a, _) = solution(1, 10);
    let (b, _) = solution(2, 20);
    let found = primary.fetch_missing_transmissions(&storage, &header(70, 2, 1, vec![a], vec![])).ok().unwrap();
    assert_eq!(found.len(), 1);
    assert_eq!(found[0].0, a);
    assert_eq!(primary.fetch_missing_transmissions(&storage, &header(71, 2, 1, vec![a, b], vec![])).err(), Some(SyncError::MissingTransmission));
}

#[test]
fn peers_to_forward_and_connect() {
    let p = |port: u16| PeerAddr { ip: 1, port };
    let connected = vec![p(1), p(2), p(3), p(4)];
    assert_eq!(propagation_targets(&connected, p(2), p(4)), vec![p(1), p(3)]);
    let bootnodes = vec![p(9), p(1), p(5)];
    assert_eq!(bootnodes_to_connect(&bootnodes, &connected, p(5)), vec![p(9)]);
}
