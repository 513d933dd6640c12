use snarkos_bft::{
    Committee, Ledger, LedgerError, Payload, Storage, Transmission, TransmissionId, Worker,
    WorkerError, MAX_WORKERS,
};

fn ledger() -> Ledger {
    let committee = Committee::new(1, 0, vec![(1, 10), (2, 10), (3, 10), (4, 10)]).unwrap();
    Ledger::new(0xaa, vec![committee]).unwrap()
}

fn payload(id: u64, checksum: u128) -> Payload {
    Payload { id, checksum, is_fee: false, bytes: (0..512u32).map(|i| (i % 251) as u8).collect() }
}

#[test]
fn test_process_solution_ok() {
    let ledger = ledger();
    let storage = Storage::new(ledger.latest_round(), 1);
    let mut worker = Worker::new(0).unwrap();
    let solution = payload(42, 4242);
    let transmission_id = TransmissionId::solution(42, 4242);
    worker.add_pending(transmission_id);
    let result = worker.process_unconfirmed_solution(42, solution, true, &vec![], &storage, &ledger);
    assert!(result.is_ok());
    assert!(!worker.pending().contains(&transmission_id));
    assert!(worker.ready_contains(transmission_id));
}

#[test]
fn test_process_solution_nok() {
    let ledger = ledger();
    let storage = Storage::new(ledger.latest_round(), 1);
    let mut worker = Worker::new(0).unwrap();
    let solution = payload(42, 4242);
    let transmission_id = TransmissionId::solution(42, 4242);
    let result = worker.process_unconfirmed_solution(42, solution, false, &vec![], &storage, &ledger);
    assert!(result.is_err());
    assert!(!worker.pending().contains(&transmission_id));
    assert!(!worker.ready_contains(transmission_id));
}

#[test]
fn test_process_transaction_ok() {
    let ledger = ledger();
    let storage = Storage::new(ledger.latest_round(), 1);
    let mut worker = Worker::new(0).unwrap();
    let transaction = payload(77, 7777);
    let transmission_id = TransmissionId::transaction(77, 7777);
    let result = worker.process_unconfirmed_transaction(77, transaction, true, &vec![], &storage, &ledger);
    assert!(result.is_ok());
    assert!(!worker.pending().contains(&transmission_id));
    assert!(worker.ready_contains(transmission_id));
}

#[test]
fn test_process_transaction_nok() {
    let ledger = ledger();
    let storage = Storage::new(ledger.latest_round(), 1);
    let mut worker = Worker::new(0).unwrap();
    let transaction = payload(77, 7777);
    let transmission_id = TransmissionId::transaction(77, 7777);
    let result = worker.process_unconfirmed_transaction(77, transaction, false, &vec![], &storage, &ledger);
    assert!(result.is_err());
    assert!(!worker.pending().contains(&transmission_id));
    assert!(!worker.ready_contains(transmission_id));
}

#[test]
fn duplicate_solution_is_refused() {
    let ledger = ledger();
    let storage = Storage::new(ledger.latest_round(), 1);
    let mut worker = Worker::new(0).unwrap();
    assert_eq!(worker.process_unconfirmed_solution(9, payload(9, 90), true, &vec![], &storage, &ledger), Ok(()));
    assert_eq!(
        worker.process_unconfirmed_solution(9, payload(9, 90), true, &vec![], &storage, &ledger),
        Err(WorkerError::DuplicateTransmission)
    );
    assert_eq!(worker.num_transmissions(), 1);
    assert_eq!(worker.num_solutions(), 1);
    assert_eq!(worker.num_transactions(), 0);
}

#[test]
fn mismatched_solution_id_is_rejected() {
    let ledger = ledger();
    let storage = Storage::new(ledger.latest_round(), 1);
    let mut worker = Worker::new(0).unwrap();
    assert_eq!(
        worker.process_unconfirmed_solution(9, payload(8, 90), true, &vec![], &storage, &ledger),
        Err(WorkerError::Rejected(LedgerError::MismatchedId))
    );
    assert_eq!(worker.num_transmissions(), 0);
}

#[test]
fn fee_transaction_is_rejected() {
    let ledger = ledger();
    let storage = Storage::new(ledger.latest_round(), 1);
    let mut worker = Worker::new(0).unwrap();
    let mut p = payload(5, 50);
    p.is_fee = true;
    assert_eq!(
        worker.process_unconfirmed_transaction(5, p, true, &vec![], &storage, &ledger),
        Err(WorkerError::Rejected(LedgerError::FeeTransaction))
    );
}

#[test]
fn transmission_in_proposal_is_duplicate() {
    let ledger = ledger();
    let storage = Storage::new(ledger.latest_round(), 1);
    let mut worker = Worker::new(0).unwrap();
    let tid = TransmissionId::transaction(5, 50);
    let proposed = vec![(tid, Transmission::Transaction(payload(5, 50)))];
    assert!(worker.contains_transmission(tid, &proposed, &storage, &ledger));
    assert_eq!(
        worker.process_unconfirmed_transaction(5, payload(5, 50), true, &proposed, &storage, &ledger),
        Err(WorkerError::DuplicateTransmission)
    );
}

#[test]
fn drain_takes_oldest_first() {
    let ledger = ledger();
    let storage = Storage::new(ledger.latest_round(), 1);
    let mut worker = Worker::new(0).unwrap();
    for i in 1..=3u64 {
        worker.process_unconfirmed_transaction(i, payload(i, i as u128 * 10), true, &vec![], &storage, &ledger).unwrap();
    }
    let ids = worker.transmission_ids();
    assert_eq!(ids, vec![
        TransmissionId::transaction(1, 10),
        TransmissionId::transaction(2, 20),
        TransmissionId::transaction(3, 30),
    ]);
    let drained = worker.drain(2);
    assert_eq!(drained.len(), 2);
    assert_eq!(drained[0].0, TransmissionId::transaction(1, 10).key());
    assert_eq!(drained[1].0, TransmissionId::transaction(2, 20).key());
    assert_eq!(worker.num_transmissions(), 1);
    let rest = worker.drain(10);
    assert_eq!(rest.len(), 1);
    assert_eq!(worker.num_transmissions(), 0);
}

#[test]
fn reinsert_skips_held_transmissions() {
    let ledger = ledger();
    let storage = Storage::new(ledger.latest_round(), 1);
    let mut worker = Worker::new(0).unwrap();
    let tid = TransmissionId::solution(3, 30);
    assert!(worker.reinsert(tid, Transmission::Solution(payload(3, 30)), &vec![], &storage, &ledger));
    assert!(!worker.reinsert(tid, Transmission::Solution(payload(3, 30)), &vec![], &storage, &ledger));
    assert_eq!(worker.num_transmissions(), 1);
}

#[test]
fn get_or_fetch_transmission_locally() {
    let ledger = ledger();
    let storage = Storage::new(ledger.latest_round(), 1);
    let mut worker = Worker::new(0).unwrap();
    let tid = TransmissionId::solution(3, 30);
    assert_eq!(worker.get_or_fetch_transmission(tid, &vec![], &storage).err(), Some(WorkerError::NotFound));
    worker.process_unconfirmed_solution(3, payload(3, 30), true, &vec![], &storage, &ledger).unwrap();
    let (id, t) = worker.get_or_fetch_transmission(tid, &vec![], &storage).unwrap();
    assert_eq!(id, tid);
    match t {
        Transmission::Solution(p) => assert_eq!(p.bytes.len(), 512),
        _ => panic!("wrong kind"),
    }
}

#[test]
fn worker_id_is_checked() {
    assert_eq!(Worker::new(0).unwrap().id(), 0);
    assert_eq!(Worker::new(MAX_WORKERS).err(), Some(WorkerError::InvalidWorkerId));
}
