use snarkos_bft::{
    commit_order, commit_transmission_ids, BatchCertificate, BatchHeader, Committee, Ledger,
    Primary, Proposal, ProposeSkip, Storage, TransmissionId,
};

const N: u64 = 4;

fn committee() -> Committee {
    Committee::new(1, 0, (1..=N).map(|a| (a, 10)).collect()).unwrap()
}

struct Node {
    primary: Primary,
    storage: Storage,
    ledger: Ledger,
}

fn nodes() -> Vec<Node> {
    (1..=N)
        .map(|a| Node {
            primary: Primary::new(a),
            storage: Storage::new(0, 10),
            ledger: Ledger::new(0, vec![committee()]).unwrap(),
        })
        .collect()
}

fn header(batch_id: u64, author: u64, round: u64, timestamp: i64, previous: &[u64]) -> BatchHeader {
    BatchHeader {
        batch_id,
        author,
        round,
        timestamp,
        committee_id: 1,
        transmission_ids: vec![],
        previous_certificate_ids: previous.to_vec(),
    }
}

/// Runs one round among the `active` validators; returns how many certificates formed.
fn run_round(nodes: &mut [Node], active: &[u64], round: u64) -> usize {
    let committee = committee();
    let time = round as i64 * 10;
    let mut formed = 0;
    for &v in active {
        let others: Vec<u64> = active.iter().copied().filter(|a| *a != v).collect();
        let node = &mut nodes[(v - 1) as usize];
        let draft = match node.primary.propose_batch(&node.storage, &mut node.ledger, &others, time, &vec![]) {
            Ok(d) => d,
            Err(_) => continue,
        };
        assert_eq!(draft.round, round);
        let batch_id = round * 100 + v;
        let previous = draft.previous_certificate_ids.clone();
        node.primary.set_proposal(Proposal::new(header(batch_id, v, round, time, &previous), draft.transmissions).unwrap());
        let mut reached = false;
        for &u in &others {
            reached = node.primary.process_batch_signature(batch_id, u, &committee, true).unwrap();
        }
        if !reached {
            continue;
        }
        let certificate_id = round * 100 + 50 + v;
        assert_eq!(node.primary.certify_proposal(&mut node.storage, &node.ledger, &committee, certificate_id), Ok(round));
        formed += 1;
        for &u in &others {
            let peer = &mut nodes[(u - 1) as usize];
            let copy = BatchCertificate { certificate_id, header: header(batch_id, v, round, time, &previous), signers: others.clone() };
            assert_eq!(peer.primary.sync_with_certificate(&mut peer.storage, &mut peer.ledger, copy, vec![], false, true), Ok(true));
        }
    }
    for &v in active {
        let node = &mut nodes[(v - 1) as usize];
        if node.storage.num_certificates() > 0 {
            node.primary.try_increment_to_the_next_round(&mut node.storage, round + 1);
        }
    }
    formed
}

#[test]
fn four_node_happy_path() {
    let mut nodes = nodes();
    let all = [1, 2, 3, 4];
    for round in 1..=4 {
        assert_eq!(run_round(&mut nodes, &all, round), 4);
    }
    let leaders: Vec<u64> = nodes.iter().map(|_| committee().get_leader(4)).collect();
    assert!(leaders.iter().all(|l| *l == leaders[0]));
    for node in &nodes {
        assert!(node.storage.current_round() >= 4);
        assert_eq!(node.storage.certificate_ids_for_round(4).len(), 4);
    }
}

#[test]
fn quorum_of_three_keeps_certifying() {
    let mut nodes = nodes();
    let honest = [1, 2, 3];
    for round in 1..=4 {
        assert!(run_round(&mut nodes, &honest, round) >= 1);
    }
    assert!(nodes[0].storage.current_round() >= 4);
}

#[test]
fn quorum_break_halts_progress() {
    let mut nodes = nodes();
    let active = [1, 2];
    for round in 1..=3 {
        assert_eq!(run_round(&mut nodes, &active, 1), 0, "round {round}");
    }
    assert_eq!(nodes[0].storage.current_round(), 1);
    let node = &mut nodes[0];
    assert_eq!(
        node.primary.propose_batch(&node.storage, &mut node.ledger, &vec![2], 100, &vec![]).err(),
        Some(ProposeSkip::NotEnoughConnections)
    );
}

#[test]
fn anchor_leader_commits_with_next_round_quorum() {
    let mut nodes = nodes();
    let all = [1, 2, 3, 4];
    for round in 1..=4 {
        run_round(&mut nodes, &all, round);
    }
    let node = &mut nodes[0];
    // The leader of round 2 is member 2; every round-3 certificate references it.
    assert_eq!(snarkos_bft::leader_certificate_ready(&node.storage, &mut node.ledger, 2), Ok(Some(252)));
    assert_eq!(snarkos_bft::leader_certificate_ready(&node.storage, &mut node.ledger, 3), Ok(None));
    // Round 5 has no certificates yet.
    assert_eq!(snarkos_bft::leader_certificate_ready(&node.storage, &mut node.ledger, 4), Ok(None));
}

#[test]
fn committed_transmissions_follow_round_then_author() {
    let t = |i: u64| TransmissionId::transaction(i, i as u128);
    let mk = |id: u64, author: u64, round: u64, tids: Vec<TransmissionId>| BatchCertificate {
        certificate_id: id,
        header: BatchHeader {
            batch_id: id,
            author,
            round,
            timestamp: 0,
            committee_id: 1,
            transmission_ids: tids,
            previous_certificate_ids: vec![],
        },
        signers: vec![],
    };
    let certs = vec![
        mk(1, 3, 2, vec![t(5), t(6)]),
        mk(2, 1, 2, vec![t(4), t(5)]),
        mk(3, 2, 1, vec![t(1)]),
        mk(4, 1, 1, vec![t(2), t(3)]),
    ];
    assert_eq!(commit_order(&certs), vec![3, 2, 1, 0]);
    assert_eq!(commit_transmission_ids(&certs), vec![t(2), t(3), t(1), t(4), t(5), t(6)]);
}
