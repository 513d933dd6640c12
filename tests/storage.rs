use snarkos_bft::{
    BatchCertificate, BatchHeader, Payload, Storage, StorageError, Transmission, TransmissionId,
};

fn tx(id: u64, checksum: u128) -> (TransmissionId, Transmission) {
    (
        TransmissionId::transaction(id, checksum),
        Transmission::Transaction(Payload { id, checksum, is_fee: false, bytes: vec![1, 2, 3] }),
    )
}

fn cert(certificate_id: u64, author: u64, round: u64, tids: Vec<TransmissionId>, previous: Vec<u64>) -> BatchCertificate {
    BatchCertificate {
        certificate_id,
        header: BatchHeader {
            batch_id: certificate_id + 1000,
            author,
            round,
            timestamp: 0,
            committee_id: 1,
            transmission_ids: tids,
            previous_certificate_ids: previous,
        },
        signers: vec![],
    }
}

#[test]
fn test_storage_gc_on_initialization() {
    for (max_gc_rounds, latest_ledger_round) in [(50u64, 51u64), (50, 999), (100, 101), (73, 500), (100, 999)] {
        let expected_gc_round = latest_ledger_round - max_gc_rounds;
        let storage = Storage::new(latest_ledger_round, max_gc_rounds);
        assert_eq!(storage.gc_round(), expected_gc_round);
    }
}

#[test]
fn storage_starts_at_round_one() {
    let storage = Storage::new(0, 10);
    assert_eq!(storage.current_round(), 1);
    assert_eq!(storage.gc_round(), 0);
    assert_eq!(storage.max_gc_rounds(), 10);
}

#[test]
fn inserted_transmissions_are_resident() {
    let mut storage = Storage::new(1, 10);
    let (tid, t) = tx(7, 70);
    let c = cert(1, 100, 1, vec![tid], vec![]);
    assert!(!storage.contains_transmission(tid));
    assert_eq!(storage.insert_certificate(c, vec![(tid, t)]), Ok(()));
    assert!(storage.contains_transmission(tid));
    assert!(storage.contains_certificate(1));
    assert!(storage.contains_batch(1001));
    assert!(storage.contains_certificate_in_round_from(1, 100));
    assert_eq!(storage.certificate_ids_for_round(1), vec![1]);
    assert_eq!(storage.authors_for_round(1), vec![100]);
    match storage.get_transmission(tid) {
        Some(Transmission::Transaction(p)) => assert_eq!(p.bytes, vec![1, 2, 3]),
        _ => panic!("transmission missing"),
    }
}

#[test]
fn insert_errors_in_order() {
    let mut storage = Storage::new(20, 10);
    // Round 10 is the GC round.
    assert_eq!(storage.insert_certificate(cert(1, 100, 10, vec![], vec![]), vec![]), Err(StorageError::StaleRound));
    assert_eq!(storage.insert_certificate(cert(1, 100, 11, vec![], vec![]), vec![]), Ok(()));
    assert_eq!(storage.insert_certificate(cert(1, 101, 11, vec![], vec![]), vec![]), Err(StorageError::DuplicateCertificate));
    // Same author, same round.
    assert_eq!(storage.insert_certificate(cert(2, 100, 11, vec![], vec![]), vec![]), Err(StorageError::MalformedHeader));
    // A previous certificate that is not resident.
    assert_eq!(storage.insert_certificate(cert(3, 100, 12, vec![], vec![99]), vec![]), Err(StorageError::MalformedHeader));
    // A repeated transmission.
    let (tid, t) = tx(5, 50);
    assert_eq!(storage.insert_certificate(cert(4, 100, 12, vec![tid, tid], vec![1]), vec![(tid, t)]), Err(StorageError::MalformedHeader));
    assert_eq!(storage.insert_certificate(cert(5, 100, 12, vec![tid], vec![1]), vec![]), Err(StorageError::MissingTransmissions));
    assert_eq!(storage.num_certificates(), 1);
    let (tid2, t2) = tx(5, 50);
    assert_eq!(storage.insert_certificate(cert(6, 100, 12, vec![tid2], vec![1]), vec![(tid2, t2)]), Ok(()));
    assert_eq!(storage.current_round(), 20);
}

#[test]
fn increment_collects_garbage() {
    let mut storage = Storage::new(1, 2);
    let (tid, t) = tx(1, 1);
    storage.insert_certificate(cert(1, 100, 1, vec![tid], vec![]), vec![(tid, t)]).unwrap();
    storage.insert_certificate(cert(2, 100, 2, vec![], vec![1]), vec![]).unwrap();
    assert_eq!(storage.increment_to_next_round(1), 2);
    assert_eq!(storage.gc_round(), 0);
    assert!(storage.contains_certificate(1));
    assert_eq!(storage.increment_to_next_round(2), 3);
    assert_eq!(storage.gc_round(), 1);
    assert!(!storage.contains_certificate(1));
    assert!(!storage.contains_transmission(tid));
    assert!(storage.contains_certificate(2));
    // Never moves back.
    assert_eq!(storage.increment_to_next_round(0), 3);
    assert_eq!(storage.current_round(), 3);
}

#[test]
fn current_round_never_decreases() {
    let mut storage = Storage::new(5, 3);
    let mut last = storage.current_round();
    for (i, round) in [3u64, 4, 9, 2, 10].iter().enumerate() {
        let _ = storage.insert_certificate(cert(i as u64 + 1, 100 + i as u64, *round, vec![], vec![]), vec![]);
        assert!(storage.current_round() >= last);
        last = storage.current_round();
        storage.increment_to_next_round(*round);
        assert!(storage.current_round() >= last);
        last = storage.current_round();
    }
}
