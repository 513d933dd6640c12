use snarkos_bft::{
    assign_to_worker, check_timestamp_delay, BatchCertificate, BatchHeader, Block, Committee,
    Ledger, Payload, Primary, Proposal, ProposalError, ProposeSkip, Storage, StorageError, Subdag,
    Transmission,
    TransmissionId, WorkerError, MAX_TRANSMISSIONS_PER_BATCH,
};

fn payload(id: u64, checksum: u128) -> Payload {
    Payload { id, checksum, is_fee: false, bytes: vec![id as u8; 8] }
}

fn header_for(batch_id: u64, author: u64, round: u64, timestamp: i64, committee_id: u64, tids: Vec<TransmissionId>, previous: Vec<u64>) -> BatchHeader {
    BatchHeader {
        batch_id,
        author,
        round,
        timestamp,
        committee_id,
        transmission_ids: tids,
        previous_certificate_ids: previous,
    }
}

#[test]
fn single_validator_cold_start() {
    let committee = Committee::new(1, 0, vec![(1, 100)]).unwrap();
    let mut ledger = Ledger::new(0, vec![Committee::new(1, 0, vec![(1, 100)]).unwrap()]).unwrap();
    let mut storage = Storage::new(ledger.latest_round(), 10);
    let mut primary = Primary::new(1);
    assert_eq!(storage.current_round(), 1);

    // One transaction is pushed.
    assert_eq!(primary.process_unconfirmed_transaction(7, payload(7, 70), true, &storage, &ledger), Ok(()));
    assert_eq!(primary.num_unconfirmed_transmissions(), 1);

    // The primary proposes it at round 1.
    let draft = primary.propose_batch(&storage, &mut ledger, &vec![], 10, &vec![]).unwrap();
    assert_eq!(draft.round, 1);
    assert_eq!(draft.transmissions.len(), 1);
    assert_eq!(draft.transmissions[0].0, TransmissionId::transaction(7, 70));
    assert!(draft.previous_certificate_ids.is_empty());
    assert_eq!(primary.num_unconfirmed_transmissions(), 0);

    let tids: Vec<TransmissionId> = draft.transmissions.iter().map(|(t, _)| *t).collect();
    let header = header_for(77, 1, draft.round, draft.timestamp, draft.committee_id, tids.clone(), vec![]);
    let proposal = Proposal::new(header, draft.transmissions).unwrap();
    assert!(proposal.is_quorum_threshold_reached(&committee));
    primary.set_proposal(proposal);

    // A certificate for round 1 is formed and stored.
    assert_eq!(primary.certify_proposal(&mut storage, &ledger, &committee, 500), Ok(1));
    assert!(storage.contains_certificate(500));
    assert!(storage.contains_transmission(TransmissionId::transaction(7, 70)));
    assert!(primary.proposed_batch().is_none());
    assert_eq!(primary.try_increment_to_the_next_round(&mut storage, 2), 2);

    // Block 1 commits the certificate with its transaction.
    let certificate = BatchCertificate {
        certificate_id: 500,
        header: header_for(77, 1, 1, 10, 1, tids, vec![]),
        signers: vec![],
    };
    let block = Block {
        height: 1,
        hash: 1,
        previous_hash: 0,
        round: 1,
        solution_ids: vec![],
        transaction_ids: vec![7],
        subdag: Some(Subdag { certificates: vec![certificate], leader: 0 }),
    };
    assert_eq!(ledger.check_next_block(&block, true), Ok(()));
    assert_eq!(ledger.advance_to_next_block(&block), Ok(()));
    assert_eq!(ledger.latest_block_height(), 1);
    assert!(ledger.contains_transmission(TransmissionId::transaction(7, 70)));
}

#[test]
fn proposal_skips_in_order() {
    let mut ledger = Ledger::new(0, vec![Committee::new(1, 0, vec![(1, 10), (2, 10), (3, 10), (4, 10)]).unwrap()]).unwrap();
    let storage = Storage::new(0, 10);
    let mut primary = Primary::new(1);
    // Alone, validator 1 holds a quarter of the stake.
    assert_eq!(primary.propose_batch(&storage, &mut ledger, &vec![], 10, &vec![]).err(), Some(ProposeSkip::NotEnoughConnections));
    // Connected to two others, the quorum is reachable.
    assert!(primary.propose_batch(&storage, &mut ledger, &vec![2, 3], 10, &vec![]).is_ok());
    // The same round again.
    assert_eq!(primary.propose_batch(&storage, &mut ledger, &vec![2, 3], 20, &vec![]).err(), Some(ProposeSkip::AlreadyProposed));
}

#[test]
fn proposal_too_soon() {
    let mut ledger = Ledger::new(0, vec![Committee::new(1, 0, vec![(1, 10)]).unwrap()]).unwrap();
    let mut storage = Storage::new(0, 10);
    let mut primary = Primary::new(1);
    assert!(primary.propose_batch(&storage, &mut ledger, &vec![], 10, &vec![]).is_ok());
    storage.increment_to_next_round(1);
    assert_eq!(primary.propose_batch(&storage, &mut ledger, &vec![], 10, &vec![]).err(), Some(ProposeSkip::TooSoon));
    assert_eq!(primary.propose_batch(&storage, &mut ledger, &vec![], 5, &vec![]).err(), Some(ProposeSkip::TooSoon));
    // Round 1 has no certificates, so round 2 lacks the previous quorum.
    assert_eq!(primary.propose_batch(&storage, &mut ledger, &vec![], 11, &vec![]).err(), Some(ProposeSkip::PreviousRoundWithoutQuorum));
}

#[test]
fn batch_never_exceeds_the_maximum() {
    let mut ledger = Ledger::new(0, vec![Committee::new(1, 0, vec![(1, 10)]).unwrap()]).unwrap();
    let storage = Storage::new(0, 10);
    let mut primary = Primary::new(1);
    for i in 0..300u64 {
        primary.process_unconfirmed_transaction(i, payload(i, i as u128 + 1), true, &storage, &ledger).unwrap();
    }
    let draft = primary.propose_batch(&storage, &mut ledger, &vec![], 10, &vec![]).unwrap();
    assert_eq!(draft.transmissions.len(), MAX_TRANSMISSIONS_PER_BATCH);
    assert_eq!(primary.num_unconfirmed_transmissions(), 50);
}

#[test]
fn rejected_and_mismatched_transmissions_are_dropped() {
    let mut ledger = Ledger::new(0, vec![Committee::new(1, 0, vec![(1, 10)]).unwrap()]).unwrap();
    let storage = Storage::new(0, 10);
    let mut primary = Primary::new(1);
    primary.process_unconfirmed_transaction(1, payload(1, 10), true, &storage, &ledger).unwrap();
    primary.process_unconfirmed_transaction(2, payload(2, 20), true, &storage, &ledger).unwrap();
    let rejected = vec![TransmissionId::transaction(1, 10)];
    let draft = primary.propose_batch(&storage, &mut ledger, &vec![], 10, &rejected).unwrap();
    assert_eq!(draft.transmissions.len(), 1);
    assert_eq!(draft.transmissions[0].0, TransmissionId::transaction(2, 20));
    assert_eq!(primary.num_unconfirmed_transmissions(), 0);
}

#[test]
fn duplicate_push_through_primary() {
    let ledger = Ledger::new(0, vec![Committee::new(1, 0, vec![(1, 10)]).unwrap()]).unwrap();
    let storage = Storage::new(0, 10);
    let mut primary = Primary::new(1);
    assert_eq!(primary.process_unconfirmed_solution(3, payload(3, 30), true, &storage, &ledger), Ok(()));
    assert_eq!(primary.process_unconfirmed_solution(3, payload(3, 30), true, &storage, &ledger), Err(WorkerError::DuplicateTransmission));
    assert_eq!(primary.num_unconfirmed_transmissions(), 1);
}

#[test]
fn signatures_reach_quorum() {
    let committee = Committee::new(1, 0, vec![(1, 10), (2, 10), (3, 10), (4, 10)]).unwrap();
    let mut primary = Primary::new(1);
    let header = header_for(9, 1, 1, 0, 1, vec![], vec![]);
    primary.set_proposal(Proposal::new(header, vec![]).unwrap());
    assert_eq!(primary.process_batch_signature(8, 2, &committee, true), Err(ProposalError::UnknownBatch));
    assert_eq!(primary.process_batch_signature(9, 7, &committee, true), Err(ProposalError::NotCommitteeMember));
    assert_eq!(primary.process_batch_signature(9, 2, &committee, false), Err(ProposalError::InvalidSignature));
    assert_eq!(primary.process_batch_signature(9, 2, &committee, true), Ok(false));
    assert_eq!(primary.process_batch_signature(9, 2, &committee, true), Ok(false));
    assert_eq!(primary.process_batch_signature(9, 3, &committee, true), Ok(true));
    let mut storage = Storage::new(0, 10);
    let ledger = Ledger::new(0, vec![Committee::new(1, 0, vec![(1, 10)]).unwrap()]).unwrap();
    assert_eq!(primary.certify_proposal(&mut storage, &ledger, &committee, 41), Ok(1));
    assert_eq!(primary.certify_proposal(&mut storage, &ledger, &committee, 42), Err(ProposalError::UnknownBatch));
}

#[test]
fn round_advance_fast_forwards() {
    let mut primary = Primary::new(1);
    let mut storage = Storage::new(1, 5);
    assert_eq!(primary.try_increment_to_the_next_round(&mut storage, 4), 4);
    // Far beyond the GC window: one step only.
    assert_eq!(primary.try_increment_to_the_next_round(&mut storage, 100), 5);
    assert_eq!(primary.try_increment_to_the_next_round(&mut storage, 3), 5);
}

#[test]
fn timestamps_and_worker_assignment() {
    assert_eq!(check_timestamp_delay(10, 11), Ok(()));
    assert_eq!(check_timestamp_delay(10, 10), Err(ProposeSkip::TooSoon));
    assert_eq!(check_timestamp_delay(i64::MIN, i64::MAX), Err(ProposeSkip::TimestampBeforePrevious));
    assert_eq!(assign_to_worker(TransmissionId::transaction(7, 1), 1), 0);
    assert_eq!(assign_to_worker(TransmissionId::transaction(7, 1), 4), 3);
}

#[test]
fn duplicate_transmissions_make_no_proposal() {
    let tid = TransmissionId::solution(1, 1);
    let header = header_for(1, 1, 1, 0, 1, vec![tid], vec![]);
    let r = Proposal::new(header, vec![
        (tid, snarkos_bft::Transmission::Solution(payload(1, 1))),
        (tid, snarkos_bft::Transmission::Solution(payload(1, 1))),
    ]);
    assert_eq!(r.err(), Some(ProposalError::DuplicateTransmission));
}

#[test]
fn counts_by_kind_and_clearing_solutions() {
    let ledger = Ledger::new(0, vec![Committee::new(1, 0, vec![(1, 10)]).unwrap()]).unwrap();
    let storage = Storage::new(0, 10);
    let mut primary = Primary::new(1);
    primary.process_unconfirmed_solution(1, payload(1, 10), true, &storage, &ledger).unwrap();
    primary.process_unconfirmed_transaction(2, payload(2, 20), true, &storage, &ledger).unwrap();
    primary.process_unconfirmed_solution(3, payload(3, 30), true, &storage, &ledger).unwrap();
    assert_eq!(primary.num_unconfirmed_solutions(), 2);
    assert_eq!(primary.num_unconfirmed_transactions(), 1);
    assert_eq!(primary.num_unconfirmed_ratifications(), 0);
    assert_eq!(primary.worker_transmission_ids(), vec![
        TransmissionId::solution(1, 10),
        TransmissionId::transaction(2, 20),
        TransmissionId::solution(3, 30),
    ]);
    primary.clear_worker_solutions();
    assert_eq!(primary.num_unconfirmed_solutions(), 0);
    assert_eq!(primary.worker_transmission_ids(), vec![TransmissionId::transaction(2, 20)]);
}

#[test]
fn proposal_cache_round_and_restore() {
    let mut primary = Primary::new(1);
    assert_eq!(primary.proposal_cache_round(), 0);
    primary.set_proposal(Proposal::new(header_for(5, 1, 7, 0, 1, vec![], vec![]), vec![]).unwrap());
    assert_eq!(primary.proposal_cache_round(), 7);
    let saved = primary.take_proposal();
    assert!(primary.proposed_batch().is_none());
    primary.restore_proposal_cache(7, saved);
    assert_eq!(primary.proposal_cache_round(), 7);
    assert_eq!(primary.proposed_batch().as_ref().map(|p| p.batch_id()), Some(5));
}

#[test]
fn refused_certificate_returns_transmissions_to_workers() {
    let committee = Committee::new(1, 0, vec![(1, 100)]).unwrap();
    let ledger = Ledger::new(0, vec![Committee::new(1, 0, vec![(1, 100)]).unwrap()]).unwrap();
    let mut storage = Storage::new(0, 10);
    storage
        .insert_certificate(
            BatchCertificate { certificate_id: 500, header: header_for(1, 2, 1, 0, 1, vec![], vec![]), signers: vec![] },
            vec![],
        )
        .unwrap();
    let mut primary = Primary::new(1);
    let tid = TransmissionId::transaction(7, 70);
    let header = header_for(77, 1, 1, 10, 1, vec![tid], vec![]);
    primary.set_proposal(Proposal::new(header, vec![(tid, Transmission::Transaction(payload(7, 70)))]).unwrap());
    assert_eq!(
        primary.certify_proposal(&mut storage, &ledger, &committee, 500),
        Err(ProposalError::Storage(StorageError::DuplicateCertificate))
    );
    assert!(primary.proposed_batch().is_none());
    assert_eq!(primary.worker_transmission_ids(), vec![tid]);
}

#[test]
fn stale_proposal_expires_when_the_round_advances() {
    let mut primary = Primary::new(1);
    let mut storage = Storage::new(1, 10);
    primary.set_proposal(Proposal::new(header_for(5, 1, 1, 0, 1, vec![], vec![]), vec![]).unwrap());
    assert_eq!(primary.try_increment_to_the_next_round(&mut storage, 2), 2);
    assert!(primary.proposed_batch().is_none());
    primary.set_proposal(Proposal::new(header_for(6, 1, 9, 0, 1, vec![], vec![]), vec![]).unwrap());
    assert_eq!(primary.try_increment_to_the_next_round(&mut storage, 3), 3);
    assert!(primary.proposed_batch().is_some());
}
