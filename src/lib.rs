//! Core of a DAG-based BFT mempool and ordering layer: worker queues of
//! unconfirmed transmissions, a round-indexed certificate store, the ledger
//! admission checks, block-sync locators and the primary's proposal rules.
mod assoc;
mod bft;
mod block_sync;
mod committee;
mod execute;
mod ledger;
mod peers;
mod primary;
mod storage;
mod subdag;
mod types;
mod worker;

pub use assoc::{
    assoc, has_key, keys_unique,
};
pub use types::{
    key_of, kind_of, same_payload, same_transmission, seq_contains, seq_unique, BatchCertificate,
    BatchHeader, Payload, Transmission, TransmissionId, TransmissionKind,
    MAX_TRANSMISSIONS_PER_BATCH, MAX_WORKERS,
};
pub use committee::{
    committee_fault, committee_lookback_round, leader_of, lookback_round, quorum_threshold_of,
    stake_of, total_stake, Committee, CommitteeError, COMMITTEE_LOOKBACK_RANGE,
};
pub use storage::{
    certificates_distinct, gc_of, has_batch, has_certificate, has_certificate_at,
    has_certificate_from, lemma_current_round_monotone, lemma_gc_bound, referenced, survives_gc,
    transmissions_closed, votes_for, Storage, StorageError,
};
pub use subdag::{
    find_certificate_from, first_from, frontier, has_round, is_linked, linked, rounds_present,
    step_down, Subdag,
};
pub use ledger::{
    atomicity_fault_from, block_certificate_ids, cache_entries, check_solution_basic,
    check_transaction_basic, committee_position, ensure_transmission_is_well_formed,
    last_starting_by, lemma_split_subdag_rejected, next_block_fault, solution_fault, subdag_fault,
    transaction_fault, well_formed_fault, Block, CoreLedgerService, Ledger, LedgerError, COMMITTEE_CACHE_SIZE,
    MAX_TRANSACTION_SIZE,
};
pub use worker::{
    count_tag, held_anywhere, id_of_key, key_to_id, lemma_admitted_is_held, local_copy,
    lemma_ready_at_most_once, not_solution, proposed_index, ready_entries, ReadyKey, Worker,
    WorkerError,
};
pub use block_sync::{
    block_locators_of, canon_refs, checkpoints_of_chain, common_ancestor_of, dummy_self_ip,
    dummy_self_ip_spec, greatest_height, lemma_common_ancestor_at_divergence, lookup_hash, peer_refs,
    recents_of_chain, BlockLocators, BlockSync, BlockSyncMode, LocatorError, PeerAddr, PeerPair,
    CHECKPOINT_INTERVAL, LOCALHOST_V4, MAX_BLOCKS_BEHIND, NUM_RECENT_BLOCKS,
};
pub use primary::{
    admits, all_ready_ids, copies_of, drained_readys, assign_to_worker, check_timestamp_delay, clamp_usize,
    is_round_quorum_reached, latest_round_with_certificate_from, ledger_has, lemma_batch_size_bound,
    missing_previous_certificate_ids, missing_transmission_ids, previous_missing,
    previous_round_has_quorum, previous_timestamp, propose_fault, ready_views, reinsert_fold,
    round_has_quorum,
    select_over, take_admitted, timestamp_fault, total_ready, total_tag, transmission_missing,
    worker_of, BatchDraft, Primary, Proposal, ProposalError, ProposeSkip, SyncError,
    MAX_BATCH_DELAY_IN_MS, MAX_TRANSMISSIONS_TOLERANCE, MIN_BATCH_DELAY_IN_SECS, PRIMARY_PING_IN_MS,
};
pub use bft::{
    append_new, certificate_of, collect_ids, commit_le, commit_order, commit_transmission_ids,
    is_commit_order, leader_backed, leader_certificate_ready, voters_of, CommitError,
};
pub use execute::{
    cost_sum, execution_fees, fees_of, sat_add, Execute, ExecuteError, ExecutionFees,
};
pub use peers::{
    addr_in, bootnodes_to_connect, bootnodes_to_connect_of, propagation_targets,
    propagation_targets_of,
};
