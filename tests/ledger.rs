use snarkos_bft::{
    committee_lookback_round, ensure_transmission_is_well_formed, is_linked, BatchCertificate,
    BatchHeader, Block, Committee, CommitteeError, Ledger, LedgerError, Payload, Subdag,
    Transmission, TransmissionId,
};

fn committee(starting_round: u64) -> Committee {
    Committee::new(1, starting_round, vec![(1, 10), (2, 10), (3, 10), (4, 10)]).unwrap()
}

fn cert(certificate_id: u64, author: u64, round: u64, previous: Vec<u64>) -> BatchCertificate {
    BatchCertificate {
        certificate_id,
        header: BatchHeader {
            batch_id: certificate_id,
            author,
            round,
            timestamp: 0,
            committee_id: 1,
            transmission_ids: vec![],
            previous_certificate_ids: previous,
        },
        signers: vec![],
    }
}

fn block(height: u32, hash: u64, previous_hash: u64, round: u64, subdag: Option<Subdag>) -> Block {
    Block { height, hash, previous_hash, round, solution_ids: vec![], transaction_ids: vec![], subdag }
}

#[test]
fn malformed_checksum_is_rejected() {
    let tid = TransmissionId::transaction(7, 700);
    let t = Transmission::Transaction(Payload { id: 7, checksum: 701, is_fee: false, bytes: vec![0; 16] });
    assert_eq!(ensure_transmission_is_well_formed(tid, &t), Err(LedgerError::ChecksumMismatch));
    let good = Transmission::Transaction(Payload { id: 7, checksum: 700, is_fee: false, bytes: vec![0; 16] });
    assert_eq!(ensure_transmission_is_well_formed(tid, &good), Ok(()));
}

#[test]
fn well_formedness_errors() {
    let tid = TransmissionId::transaction(7, 700);
    let solution = Transmission::Solution(Payload { id: 7, checksum: 700, is_fee: false, bytes: vec![] });
    assert_eq!(ensure_transmission_is_well_formed(tid, &solution), Err(LedgerError::MismatchedKind));
    let other = Transmission::Transaction(Payload { id: 8, checksum: 700, is_fee: false, bytes: vec![] });
    assert_eq!(ensure_transmission_is_well_formed(tid, &other), Err(LedgerError::MismatchedId));
    let fee = Transmission::Transaction(Payload { id: 7, checksum: 700, is_fee: true, bytes: vec![] });
    assert_eq!(ensure_transmission_is_well_formed(tid, &fee), Err(LedgerError::FeeTransaction));
    let big = Transmission::Transaction(Payload { id: 7, checksum: 700, is_fee: false, bytes: vec![0; 128_001] });
    assert_eq!(ensure_transmission_is_well_formed(tid, &big), Err(LedgerError::TooLarge));
    assert_eq!(ensure_transmission_is_well_formed(TransmissionId::ratification(), &Transmission::Ratification), Ok(()));
}

#[test]
fn committee_quorum_threshold() {
    let c = committee(0);
    assert_eq!(c.total_stake(), 40);
    assert_eq!(c.quorum_threshold(), 27);
    assert!(c.is_quorum_threshold_reached(&vec![1, 2, 3]));
    assert!(!c.is_quorum_threshold_reached(&vec![1, 2]));
    assert!(!c.is_quorum_threshold_reached(&vec![1, 1, 1, 9]));
    assert_eq!(Committee::new(1, 0, vec![]).err().map(|e| e), Some(CommitteeError::Empty));
    assert_eq!(Committee::new(1, 0, vec![(1, 1), (1, 2)]).err(), Some(CommitteeError::DuplicateMember));
    assert_eq!(Committee::new(1, 0, vec![(1, u64::MAX), (2, 1)]).err(), Some(CommitteeError::StakeOverflow));
}

#[test]
fn leader_rotates_per_even_round() {
    let c = committee(0);
    assert_eq!(c.get_leader(0), 1);
    assert_eq!(c.get_leader(1), 1);
    assert_eq!(c.get_leader(2), 2);
    assert_eq!(c.get_leader(4), 3);
    assert_eq!(c.get_leader(8), 1);
}

#[test]
fn lookback_rounds() {
    assert_eq!(committee_lookback_round(0), 0);
    assert_eq!(committee_lookback_round(5), 0);
    assert_eq!(committee_lookback_round(110), 9);
    assert_eq!(committee_lookback_round(111), 9);
}

#[test]
fn committee_lookup_uses_rounds_reached() {
    let mut ledger = Ledger::new(1, vec![committee(0), Committee::new(2, 4, vec![(5, 1)]).unwrap()]).unwrap();
    assert_eq!(ledger.get_committee_for_round(0), Ok(0));
    // Round 4 is beyond the latest round, but the current committee starts there.
    assert_eq!(ledger.get_committee_for_round(4), Ok(1));
    assert_eq!(ledger.get_committee_for_round(3), Err(LedgerError::MissingCommittee));
    // Cached answers agree.
    assert_eq!(ledger.get_committee_for_round(4), Ok(1));
    assert_eq!(ledger.get_committee_lookback_for_round(6), Ok(0));
    assert_eq!(ledger.current_committee().id(), 2);
}

#[test]
fn advance_and_query_blocks() {
    let mut ledger = Ledger::new(100, vec![committee(0)]).unwrap();
    assert_eq!(ledger.latest_block_height(), 0);
    let mut b = block(1, 101, 100, 2, Some(Subdag { certificates: vec![cert(9, 1, 2, vec![])], leader: 0 }));
    b.solution_ids = vec![5];
    b.transaction_ids = vec![6];
    assert_eq!(ledger.check_next_block(&b, true), Ok(()));
    assert_eq!(ledger.check_next_block(&b, false), Err(LedgerError::VmRejected));
    assert_eq!(ledger.advance_to_next_block(&b), Ok(()));
    assert_eq!(ledger.latest_block_height(), 1);
    assert_eq!(ledger.latest_round(), 2);
    assert_eq!(ledger.get_block_hash(1), Ok(101));
    assert_eq!(ledger.get_block_round(1), Ok(2));
    assert_eq!(ledger.get_block_hash(2), Err(LedgerError::MissingBlock));
    assert!(ledger.contains_block_height(1));
    assert!(ledger.contains_transmission(TransmissionId::solution(5, 0)));
    assert!(ledger.contains_transmission(TransmissionId::transaction(6, 0)));
    assert!(!ledger.contains_transmission(TransmissionId::ratification()));
    assert!(ledger.contains_certificate(9));
    assert_eq!(ledger.check_next_block(&b, true), Err(LedgerError::DuplicateBlockHash));
    let again = block(1, 555, 101, 3, None);
    assert_eq!(ledger.check_next_block(&again, true), Err(LedgerError::DuplicateBlockHeight));
    let mut dup = block(2, 556, 101, 4, None);
    dup.solution_ids = vec![5];
    assert_eq!(ledger.check_next_block(&dup, true), Err(LedgerError::DuplicateSolution));
    assert_eq!(ledger.advance_to_next_block(&block(3, 557, 101, 4, None)), Err(LedgerError::NotNextBlock));
    ledger.shut_down();
    assert_eq!(ledger.advance_to_next_block(&block(2, 557, 101, 4, None)), Err(LedgerError::Shutdown));
}

#[test]
fn latest_leader_is_cached() {
    let mut ledger = Ledger::new(100, vec![committee(0)]).unwrap();
    assert_eq!(ledger.latest_leader(), None);
    ledger.update_latest_leader(4, 3);
    assert_eq!(ledger.latest_leader(), Some((4, 3)));
}

#[test]
fn linked_certificates() {
    // Round 2: a (id 1). Round 3: b (id 2) -> a. Round 4: c (id 3) -> b.
    let certs = vec![cert(1, 2, 2, vec![]), cert(2, 1, 3, vec![1]), cert(3, 3, 4, vec![2])];
    assert_eq!(is_linked(&certs, 0, 2), Ok(true));
    let unlinked = vec![cert(1, 2, 2, vec![]), cert(2, 1, 3, vec![]), cert(3, 3, 4, vec![2])];
    assert_eq!(is_linked(&unlinked, 0, 2), Ok(false));
    let gap = vec![cert(1, 2, 2, vec![]), cert(3, 3, 4, vec![1])];
    assert_eq!(is_linked(&gap, 0, 1), Err(()));
}

#[test]
fn splittable_subdag_is_rejected() {
    // Leader of round 2 under the committee is member 2; the anchor is round 4 (leader 3).
    let mut ledger = Ledger::new(100, vec![committee(0)]).unwrap();
    let certs = vec![cert(1, 2, 2, vec![]), cert(2, 1, 3, vec![1]), cert(3, 3, 4, vec![2])];
    let b = block(1, 101, 100, 4, Some(Subdag { certificates: certs, leader: 2 }));
    assert_eq!(ledger.check_next_block(&b, true), Err(LedgerError::SplitSubdag));
    // Without the path from the anchor to the round-2 leader, the block is atomic.
    let certs = vec![cert(1, 2, 2, vec![]), cert(2, 1, 3, vec![]), cert(3, 3, 4, vec![2])];
    let b = block(1, 101, 100, 4, Some(Subdag { certificates: certs, leader: 2 }));
    assert_eq!(ledger.check_next_block(&b, true), Ok(()));
    let b = block(1, 101, 100, 4, Some(Subdag { certificates: vec![], leader: 0 }));
    assert_eq!(ledger.check_next_block(&b, true), Err(LedgerError::MalformedSubdag));
}
