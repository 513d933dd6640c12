use vstd::prelude::*;

use crate::assoc::{has_key, keys_unique};
use crate::committee::{lookback_round, stake_of, Committee};
use crate::ledger::{committee_position, solution_fault, transaction_fault, Ledger};
use crate::storage::{has_certificate, has_certificate_at, has_certificate_from, Storage, StorageError};
use crate::types::{
    seq_contains, vec_contains_id, BatchCertificate, BatchHeader, Transmission, TransmissionId,
    TransmissionKind, MAX_TRANSMISSIONS_PER_BATCH, MAX_WORKERS,
};
use crate::worker::{id_of_key, key_to_id, ReadyKey, Worker, WorkerError};

verus! {

/// The least time, in seconds, between two batch proposals of one validator.
pub const MIN_BATCH_DELAY_IN_SECS: u64 = 1;

/// The period, in milliseconds, of the proposal and round-advance ticks.
pub const MAX_BATCH_DELAY_IN_MS: u64 = 2500;

/// The period, in milliseconds, of the primary ping.
pub const PRIMARY_PING_IN_MS: u64 = 5000;

/// The most unconfirmed transmissions accepted from one push.
pub const MAX_TRANSMISSIONS_TOLERANCE: usize = 500;

/// Why the primary skips proposing a batch this tick.
#[derive(Clone, Copy, Debug, PartialEq, Eq, Structural)]
pub enum ProposeSkip {
    /// Round zero has no batches.
    RoundZero,
    /// The storage round is below the latest proposed round.
    BehindProposalCache,
    /// The proposal timestamp is before the previous one.
    TimestampBeforePrevious,
    /// Less than `MIN_BATCH_DELAY_IN_SECS` since the previous proposal.
    TooSoon,
    /// This validator already has a certificate in the round.
    AlreadyCertified,
    /// This validator already proposed in the round.
    AlreadyProposed,
    /// No committee is known for the round's lookback.
    MissingCommittee,
    /// This validator and its connected validators hold no quorum.
    NotEnoughConnections,
    /// The previous round's certificates hold no quorum.
    PreviousRoundWithoutQuorum,
}

/// Why a proposal at `timestamp` is too early after one at `previous`, if it is: the
/// difference must fit in 64 bits and be at least `MIN_BATCH_DELAY_IN_SECS` seconds.
pub open spec fn timestamp_fault(previous: i64, timestamp: i64) -> Option<ProposeSkip> {
    if (timestamp as int) - (previous as int) < i64::MIN as int {
        Some(ProposeSkip::TimestampBeforePrevious)
    } else if (timestamp as int) - (previous as int) > i64::MAX as int {
        Some(ProposeSkip::TimestampBeforePrevious)
    } else if (timestamp as int) - (previous as int) < MIN_BATCH_DELAY_IN_SECS as int {
        Some(ProposeSkip::TooSoon)
    } else {
        None
    }
}

/// Checks that a new proposal at `timestamp` comes at least `MIN_BATCH_DELAY_IN_SECS`
/// after `previous`; the difference must be representable.
pub fn check_timestamp_delay(previous: i64, timestamp: i64) -> (r: Result<(), ProposeSkip>)
    ensures
        match r {
            Ok(()) => timestamp_fault(previous, timestamp) is None,
            Err(e) => timestamp_fault(previous, timestamp) == Some(e),
        },
{
    match timestamp.checked_sub(previous) {
        None => Err(ProposeSkip::TimestampBeforePrevious),
        Some(elapsed) => {
            if elapsed < MIN_BATCH_DELAY_IN_SECS as i64 {
                Err(ProposeSkip::TooSoon)
            } else {
                Ok(())
            }
        },
    }
}

/// The worker that a transmission belongs to: its content identifier modulo the
/// number of workers.
pub open spec fn worker_of(tid: TransmissionId, num_workers: u8) -> u8 {
    (tid.id % (num_workers as u64)) as u8
}

/// Returns the worker that a transmission belongs to.
pub fn assign_to_worker(tid: TransmissionId, num_workers: u8) -> (r: u8)
    requires
        num_workers > 0,
    ensures
        r == worker_of(tid, num_workers),
        r < num_workers,
{
    (tid.id % (num_workers as u64)) as u8
}

/// The ledger confirms the transmission.
pub open spec fn ledger_has(ledger: Ledger, tid: TransmissionId) -> bool {
    match tid.kind {
        TransmissionKind::Ratification => false,
        TransmissionKind::Solution => seq_contains(ledger.solutions_view(), tid.id),
        TransmissionKind::Transaction => seq_contains(ledger.transactions_view(), tid.id),
    }
}

/// A drained transmission joins the batch: the ledger does not have it; storage does
/// not have it, unless the batch is still empty; it is a solution or a transaction
/// (never a ratification) whose checksum matches its identifier and that passes the
/// ledger's basic check, where `rejected` lists what the virtual machine refuses now.
pub open spec fn admits(
    tid: TransmissionId,
    t: Transmission,
    batch: Seq<(TransmissionId, Transmission)>,
    storage: Storage,
    ledger: Ledger,
    rejected: Seq<TransmissionId>,
) -> bool {
    &&& !ledger_has(ledger, tid)
    &&& !(batch.len() > 0 && has_key(storage.txs_view(), tid))
    &&& match t {
        Transmission::Solution(p) => tid.kind == TransmissionKind::Solution && p.checksum == tid.checksum
            && solution_fault(tid.id, p, !seq_contains(rejected, tid)) is None,
        Transmission::Transaction(p) => tid.kind == TransmissionKind::Transaction && p.checksum == tid.checksum
            && transaction_fault(tid.id, p, !seq_contains(rejected, tid)) is None,
        Transmission::Ratification => false,
    }
}

/// Draining one worker's ready entries in order until `need` more transmissions were
/// admitted or the entries run out: the batch afterwards, and how many entries were
/// consumed (drained transmissions that are not admitted are dropped).
pub open spec fn take_admitted(
    entries: Seq<(ReadyKey, Transmission)>,
    batch: Seq<(TransmissionId, Transmission)>,
    need: nat,
    storage: Storage,
    ledger: Ledger,
    rejected: Seq<TransmissionId>,
) -> (Seq<(TransmissionId, Transmission)>, nat)
    decreases entries.len(),
{
    if need == 0 || entries.len() == 0 {
        (batch, 0)
    } else {
        let tid = id_of_key(entries[0].0);
        if admits(tid, entries[0].1, batch, storage, ledger, rejected) {
            let r = take_admitted(entries.drop_first(), batch.push((tid, entries[0].1)), (need - 1) as nat, storage, ledger, rejected);
            (r.0, r.1 + 1)
        } else {
            let r = take_admitted(entries.drop_first(), batch, need, storage, ledger, rejected);
            (r.0, r.1 + 1)
        }
    }
}

/// The batch built by draining each worker's entries in turn, `need` per worker.
pub open spec fn select_over(
    readys: Seq<Seq<(ReadyKey, Transmission)>>,
    batch: Seq<(TransmissionId, Transmission)>,
    need: nat,
    storage: Storage,
    ledger: Ledger,
    rejected: Seq<TransmissionId>,
) -> Seq<(TransmissionId, Transmission)>
    decreases readys.len(),
{
    if readys.len() == 0 {
        batch
    } else {
        select_over(readys.drop_first(), take_admitted(readys[0], batch, need, storage, ledger, rejected).0, need, storage, ledger, rejected)
    }
}

proof fn lemma_take_admitted_bound(
    entries: Seq<(ReadyKey, Transmission)>,
    batch: Seq<(TransmissionId, Transmission)>,
    need: nat,
    storage: Storage,
    ledger: Ledger,
    rejected: Seq<TransmissionId>,
)
    ensures
        batch.len() <= take_admitted(entries, batch, need, storage, ledger, rejected).0.len() <= batch.len() + need,
        take_admitted(entries, batch, need, storage, ledger, rejected).1 <= entries.len(),
    decreases entries.len(),
{
    if need > 0 && entries.len() > 0 {
        let tid = id_of_key(entries[0].0);
        if admits(tid, entries[0].1, batch, storage, ledger, rejected) {
            lemma_take_admitted_bound(entries.drop_first(), batch.push((tid, entries[0].1)), (need - 1) as nat, storage, ledger, rejected);
        } else {
            lemma_take_admitted_bound(entries.drop_first(), batch, need, storage, ledger, rejected);
        }
    }
}

proof fn lemma_select_over_bound(
    readys: Seq<Seq<(ReadyKey, Transmission)>>,
    batch: Seq<(TransmissionId, Transmission)>,
    need: nat,
    storage: Storage,
    ledger: Ledger,
    rejected: Seq<TransmissionId>,
)
    ensures
        select_over(readys, batch, need, storage, ledger, rejected).len() <= batch.len() + readys.len() * need,
    decreases readys.len(),
{
    if readys.len() > 0 {
        lemma_take_admitted_bound(readys[0], batch, need, storage, ledger, rejected);
        let b = take_admitted(readys[0], batch, need, storage, ledger, rejected).0;
        lemma_select_over_bound(readys.drop_first(), b, need, storage, ledger, rejected);
        assert(readys.len() * need == need + (readys.len() - 1) * need) by (nonlinear_arith);
    }
}

/// Every batch drawn from the workers, with `MAX_TRANSMISSIONS_PER_BATCH / k` taken
/// from each of `k` workers, has at most `MAX_TRANSMISSIONS_PER_BATCH` transmissions.
pub proof fn lemma_batch_size_bound(
    readys: Seq<Seq<(ReadyKey, Transmission)>>,
    storage: Storage,
    ledger: Ledger,
    rejected: Seq<TransmissionId>,
)
    requires
        readys.len() > 0,
    ensures
        select_over(readys, Seq::empty(), (MAX_TRANSMISSIONS_PER_BATCH as nat / readys.len()) as nat, storage, ledger, rejected).len()
            <= MAX_TRANSMISSIONS_PER_BATCH,
{
    let need = (MAX_TRANSMISSIONS_PER_BATCH as nat / readys.len()) as nat;
    lemma_select_over_bound(readys, Seq::empty(), need, storage, ledger, rejected);
    assert(readys.len() * need <= MAX_TRANSMISSIONS_PER_BATCH) by (nonlinear_arith)
        requires
            readys.len() > 0,
            need == MAX_TRANSMISSIONS_PER_BATCH as nat / readys.len(),
    ;
}

/// The ready entries of each worker.
pub open spec fn ready_views(ws: Seq<Worker>) -> Seq<Seq<(ReadyKey, Transmission)>> {
    Seq::new(ws.len(), |i: int| ws[i].ready_view())
}

/// Returns `true` if the drained transmission joins the batch.
fn joins_batch(
    tid: TransmissionId,
    t: &Transmission,
    batch: &Vec<(TransmissionId, Transmission)>,
    storage: &Storage,
    ledger: &Ledger,
    rejected: &Vec<TransmissionId>,
) -> (r: bool)
    ensures
        r == admits(tid, *t, batch@, *storage, *ledger, rejected@),
{
    if ledger.contains_transmission(tid) {
        return false;
    }
    if batch.len() > 0 && storage.contains_transmission(tid) {
        return false;
    }
    let accepted = !vec_contains_id(rejected, tid);
    match t {
        Transmission::Solution(p) => tid.kind == TransmissionKind::Solution && p.checksum == tid.checksum
            && crate::ledger::check_solution_basic(tid.id, p, accepted).is_ok(),
        Transmission::Transaction(p) => tid.kind == TransmissionKind::Transaction && p.checksum == tid.checksum
            && crate::ledger::check_transaction_basic(tid.id, p, accepted).is_ok(),
        Transmission::Ratification => false,
    }
}

/// A batch being proposed: its signed header, the transmissions it carries, and the
/// validators that have signed its batch identifier so far.
pub struct Proposal {
    header: BatchHeader,
    transmissions: Vec<(TransmissionId, Transmission)>,
    signers: Vec<u64>,
}

/// Why a signature was not added to a proposal, or a proposal was not certified.
#[derive(Clone, Copy, Debug, PartialEq, Eq, Structural)]
pub enum ProposalError {
    /// The signer is not a member of the committee.
    NotCommitteeMember,
    /// The signature does not verify over the batch identifier.
    InvalidSignature,
    /// There is no proposal, or it is for another batch.
    UnknownBatch,
    /// The signatures do not reach the quorum threshold yet.
    QuorumNotReached,
    /// Storage refused the certificate.
    Storage(StorageError),
    /// A transmission occurs twice.
    DuplicateTransmission,
}

fn pairs_unique(v: &Vec<(TransmissionId, Transmission)>) -> (r: bool)
    ensures
        r == keys_unique(v@),
{
    let mut i: usize = 0;
    while i < v.len()
        invariant
            i <= v@.len(),
            forall|a: int, b: int| 0 <= a < i && 0 <= b < v@.len() && a != b ==> #[trigger] v@[a].0 != #[trigger] v@[b].0,
        decreases v.len() - i,
    {
        let mut j: usize = 0;
        while j < v.len()
            invariant
                i < v@.len(),
                j <= v@.len(),
                forall|b: int| 0 <= b < j && b != i ==> v@[i as int].0 != #[trigger] v@[b].0,
            decreases v.len() - j,
        {
            if j != i && v[j].0 == v[i].0 {
                return false;
            }
            j = j + 1;
        }
        i = i + 1;
    }
    true
}

impl Proposal {
    pub closed spec fn header_view(&self) -> BatchHeader {
        self.header
    }

    pub closed spec fn transmissions_view(&self) -> Seq<(TransmissionId, Transmission)> {
        self.transmissions@
    }

    pub closed spec fn signers_view(&self) -> Seq<u64> {
        self.signers@
    }

    /// Each transmission is carried once.
    pub open spec fn wf(&self) -> bool {
        keys_unique(self.transmissions_view())
    }

    /// Starts a proposal for a signed header with the transmissions it carries, each
    /// of which must occur once.
    pub fn new(header: BatchHeader, transmissions: Vec<(TransmissionId, Transmission)>) -> (r: Result<Proposal, ProposalError>)
        ensures
            match r {
                Ok(p) => p.wf() && p.header_view() == header && p.transmissions_view() == transmissions@
                    && p.signers_view().len() == 0,
                Err(e) => !keys_unique(transmissions@) && e == ProposalError::DuplicateTransmission,
            },
    {
        if !pairs_unique(&transmissions) {
            return Err(ProposalError::DuplicateTransmission);
        }
        Ok(Proposal { header, transmissions, signers: Vec::new() })
    }

    /// Returns the batch identifier.
    pub fn batch_id(&self) -> (r: u64)
        ensures
            r == self.header_view().batch_id,
    {
        self.header.batch_id
    }

    /// Returns the round of the proposal.
    pub fn round(&self) -> (r: u64)
        ensures
            r == self.header_view().round,
    {
        self.header.round
    }

    /// Returns the timestamp of the proposal.
    pub fn timestamp(&self) -> (r: i64)
        ensures
            r == self.header_view().timestamp,
    {
        self.header.timestamp
    }

    /// Returns `true` if the proposal carries the transmission.
    pub fn contains_transmission(&self, tid: TransmissionId) -> (r: bool)
        ensures
            r == has_key(self.transmissions_view(), tid),
    {
        crate::worker::proposed_index(&self.transmissions, tid).is_some()
    }

    /// Returns the transmissions the proposal carries.
    pub fn transmissions(&self) -> (r: &Vec<(TransmissionId, Transmission)>)
        ensures
            r@ == self.transmissions_view(),
    {
        &self.transmissions
    }

    /// Adds the signature of `signer` over the batch identifier, given whether it
    /// verifies. The signer must be a committee member; a repeated signer is kept once.
    pub fn add_signature(&mut self, signer: u64, committee: &Committee, signature_valid: bool) -> (r: Result<(), ProposalError>)
        ensures
            r is Err ==> *final(self) == *old(self),
            final(self).header_view() == old(self).header_view(),
            final(self).transmissions_view() == old(self).transmissions_view(),
            match r {
                Ok(()) => (exists|i: int| 0 <= i < committee.members_view().len() && committee.members_view()[i].0 == signer)
                    && signature_valid
                    && final(self).signers_view() == if seq_contains(old(self).signers_view(), signer) {
                        old(self).signers_view()
                    } else {
                        old(self).signers_view().push(signer)
                    },
                Err(e) => final(self).signers_view() == old(self).signers_view() && if !(exists|i: int| 0 <= i < committee.members_view().len() && committee.members_view()[i].0 == signer) {
                    e == ProposalError::NotCommitteeMember
                } else {
                    !signature_valid && e == ProposalError::InvalidSignature
                },
            },
    {
        if !committee.is_committee_member(signer) {
            return Err(ProposalError::NotCommitteeMember);
        }
        if !signature_valid {
            return Err(ProposalError::InvalidSignature);
        }
        if !crate::types::vec_contains_u64(&self.signers, signer) {
            self.signers.push(signer);
        }
        Ok(())
    }

    /// Returns `true` if the author and the signers hold a quorum of the committee's stake.
    pub fn is_quorum_threshold_reached(&self, committee: &Committee) -> (r: bool)
        requires
            committee.wf(),
        ensures
            r == (stake_of(committee.members_view(), self.signers_view().push(self.header_view().author))
                >= committee.quorum_threshold_spec()),
    {
        let mut voters: Vec<u64> = Vec::new();
        let mut i: usize = 0;
        while i < self.signers.len()
            invariant
                i <= self.signers@.len(),
                voters@ == self.signers@.subrange(0, i as int),
            decreases self.signers.len() - i,
        {
            voters.push(self.signers[i]);
            i = i + 1;
            assert(voters@ =~= self.signers@.subrange(0, i as int));
        }
        voters.push(self.header.author);
        assert(voters@ =~= self.signers@.push(self.header.author));
        committee.is_quorum_threshold_reached(&voters)
    }

    /// Turns the proposal into a certificate with the given identifier, and returns
    /// it with the transmissions it carries.
    pub fn into_certificate(self, certificate_id: u64) -> (r: (BatchCertificate, Vec<(TransmissionId, Transmission)>))
        ensures
            r.0.certificate_id == certificate_id,
            r.0.header == self.header_view(),
            r.0.signers@ == self.signers_view(),
            r.1@ == self.transmissions_view(),
    {
        (BatchCertificate { certificate_id, header: self.header, signers: self.signers }, self.transmissions)
    }
}

/// What the primary hands out to be signed and broadcast: the round, timestamp and
/// committee of a new batch, the transmissions it carries, and the certificates of the
/// previous round it builds on.
pub struct BatchDraft {
    pub round: u64,
    pub timestamp: i64,
    pub committee_id: u64,
    pub transmissions: Vec<(TransmissionId, Transmission)>,
    pub previous_certificate_ids: Vec<u64>,
}

/// The time of this validator's last proposal: the timestamp of its certificate of
/// `previous_round`, if storage holds one, else `fallback`.
pub open spec fn previous_timestamp(storage: Storage, previous_round: u64, author: u64, fallback: i64) -> i64 {
    if has_certificate_from(storage.certs_view(), previous_round, author) {
        storage.certs_view()[choose|i: int| 0 <= i < storage.certs_view().len() && #[trigger] storage.certs_view()[i].header.round
            == previous_round && storage.certs_view()[i].header.author == author].header.timestamp
    } else {
        fallback
    }
}

/// The authors of the certificates of `round` in storage, as a sequence.
pub open spec fn authors_in(storage: Storage, round: u64, authors: Seq<u64>) -> bool {
    forall|a: u64| seq_contains(authors, a) <==> has_certificate_from(storage.certs_view(), round, a)
}

/// The authors of the certificates of `previous` in storage hold a quorum of the
/// stake of that round's committee lookback.
pub open spec fn previous_round_has_quorum(storage: Storage, cs: Seq<Committee>, latest: u64, previous: u64) -> bool {
    exists|authors: Seq<u64>| #[trigger] authors_in(storage, previous, authors)
        && stake_of(cs[committee_position(cs, latest, lookback_round(previous)).unwrap()].members_view(), authors)
            >= cs[committee_position(cs, latest, lookback_round(previous)).unwrap()].quorum_threshold_spec()
}

/// Why the primary skips a proposal at round `round`, if it does, in the order checked.
pub open spec fn propose_fault(
    storage: Storage,
    ledger: Ledger,
    address: u64,
    lock: u64,
    latest_timestamp: i64,
    connected: Seq<u64>,
    now: i64,
) -> Option<ProposeSkip> {
    let round = storage.current_round_view();
    let previous = if round >= 1 { (round - 1) as u64 } else { 0 };
    let cs = ledger.committees_view();
    let latest = ledger.latest_round_spec();
    if round == 0 {
        Some(ProposeSkip::RoundZero)
    } else if round < lock {
        Some(ProposeSkip::BehindProposalCache)
    } else if timestamp_fault(previous_timestamp(storage, previous, address, latest_timestamp), now) is Some {
        timestamp_fault(previous_timestamp(storage, previous, address, latest_timestamp), now)
    } else if has_certificate_from(storage.certs_view(), round, address) {
        Some(ProposeSkip::AlreadyCertified)
    } else if round == lock {
        Some(ProposeSkip::AlreadyProposed)
    } else if committee_position(cs, latest, lookback_round(round)) is None {
        Some(ProposeSkip::MissingCommittee)
    } else if stake_of(cs[committee_position(cs, latest, lookback_round(round)).unwrap()].members_view(), connected.push(address))
        < cs[committee_position(cs, latest, lookback_round(round)).unwrap()].quorum_threshold_spec() {
        Some(ProposeSkip::NotEnoughConnections)
    } else if previous > 0 && committee_position(cs, latest, lookback_round(previous)) is None {
        Some(ProposeSkip::MissingCommittee)
    } else if previous > 0 && !previous_round_has_quorum(storage, cs, latest, previous) {
        Some(ProposeSkip::PreviousRoundWithoutQuorum)
    } else {
        None
    }
}

/// A validator's primary: its address, its worker shards, its current proposal,
/// the timestamp of its latest proposal, and the latest round it proposed in.
pub struct Primary {
    address: u64,
    workers: Vec<Worker>,
    proposed_batch: Option<Proposal>,
    latest_proposed_batch_timestamp: i64,
    latest_proposed_round: u64,
}

impl Primary {
    pub closed spec fn address_view(&self) -> u64 {
        self.address
    }

    pub closed spec fn workers_view(&self) -> Seq<Worker> {
        self.workers@
    }

    pub closed spec fn proposal_view(&self) -> Option<Proposal> {
        self.proposed_batch
    }

    pub closed spec fn latest_timestamp_view(&self) -> i64 {
        self.latest_proposed_batch_timestamp
    }

    /// The transmissions of the current proposal, or none.
    pub open spec fn proposal_txs(&self) -> Seq<(TransmissionId, Transmission)> {
        match self.proposal_view() {
            Some(p) => p.transmissions_view(),
            None => Seq::empty(),
        }
    }

    /// The local copy of a transmission held by the worker it belongs to, by storage, or
    /// by the current proposal.
    pub open spec fn local_copy_of(&self, storage: Storage, tid: TransmissionId) -> Option<Transmission> {
        crate::worker::local_copy(
            self.workers_view()[worker_of(tid, MAX_WORKERS) as int].ready_view(),
            storage.txs_view(),
            self.proposal_txs(),
            tid,
        )
    }

    /// The latest round this primary proposed in.
    pub closed spec fn lock_view(&self) -> u64 {
        self.latest_proposed_round
    }

    /// `MAX_WORKERS` workers, each well-formed, and a well-formed proposal if any.
    pub open spec fn wf(&self) -> bool {
        &&& self.workers_view().len() == MAX_WORKERS
        &&& forall|i: int| 0 <= i < self.workers_view().len() ==> (#[trigger] self.workers_view()[i]).wf()
        &&& (self.proposal_view() matches Some(p) ==> p.wf())
    }

    /// Creates the primary of the validator at `address`, with `MAX_WORKERS` empty
    /// workers and no proposal.
    pub fn new(address: u64) -> (r: Primary)
        ensures
            r.wf(),
            r.address_view() == address,
            r.proposal_view() is None,
            r.lock_view() == 0,
            r.latest_timestamp_view() == 0,
            forall|i: int| 0 <= i < r.workers_view().len() ==> (#[trigger] r.workers_view()[i]).ready_view().len() == 0,
    {
        let mut workers: Vec<Worker> = Vec::new();
        let mut id: u8 = 0;
        while id < MAX_WORKERS
            invariant
                id <= MAX_WORKERS,
                workers@.len() == id,
                forall|i: int| 0 <= i < workers@.len() ==> (#[trigger] workers@[i]).wf() && workers@[i].ready_view().len() == 0,
            decreases MAX_WORKERS - id,
        {
            match Worker::new(id) {
                Ok(w) => workers.push(w),
                Err(_) => {},
            }
            id = id + 1;
        }
        Primary { address, workers, proposed_batch: None, latest_proposed_batch_timestamp: 0, latest_proposed_round: 0 }
    }

    /// Returns the number of workers.
    pub fn num_workers(&self) -> (r: u8)
        requires
            self.wf(),
        ensures
            r == self.workers_view().len(),
    {
        self.workers.len() as u8
    }

    /// Returns the workers.
    pub fn workers(&self) -> (r: &Vec<Worker>)
        ensures
            r@ == self.workers_view(),
    {
        &self.workers
    }

    /// Returns the current proposal, if any.
    pub fn proposed_batch(&self) -> (r: &Option<Proposal>)
        ensures
            *r == self.proposal_view(),
    {
        &self.proposed_batch
    }

    /// Returns the number of unconfirmed transmissions over all workers, saturating
    /// at `usize::MAX`.
    pub fn num_unconfirmed_transmissions(&self) -> (r: usize)
        requires
            self.wf(),
        ensures
            r == if total_ready(self.workers_view(), self.workers_view().len() as nat) > usize::MAX {
                usize::MAX as nat
            } else {
                total_ready(self.workers_view(), self.workers_view().len() as nat)
            },
    {
        let mut total: usize = 0;
        let mut i: usize = 0;
        while i < self.workers.len()
            invariant
                self.wf(),
                i <= self.workers@.len(),
                total == if total_ready(self.workers@, i as nat) > usize::MAX {
                    usize::MAX as nat
                } else {
                    total_ready(self.workers@, i as nat)
                },
            decreases self.workers.len() - i,
        {
            total = total.saturating_add(self.workers[i].num_transmissions());
            i = i + 1;
        }
        total
    }

    /// Returns the timestamp of this validator's certificate of `previous_round` if
    /// storage holds one, else that of its latest proposal.
    fn previous_proposal_timestamp(&self, storage: &Storage, previous_round: u64) -> (r: i64)
        requires
            storage.wf(),
        ensures
            r == previous_timestamp(*storage, previous_round, self.address_view(), self.latest_timestamp_view()),
    {
        match storage.get_certificate_for_round_with_author(previous_round, self.address) {
            Some(c) => {
                proof {
                    let certs = storage.certs_view();
                    let j = choose|j: int| 0 <= j < certs.len() && certs[j] == *c;
                    assert(certs[j].header.round == previous_round && certs[j].header.author == self.address);
                    let k = choose|i: int| 0 <= i < certs.len() && #[trigger] certs[i].header.round == previous_round
                        && certs[i].header.author == self.address;
                    if j != k {
                        assert(certs[j].certificate_id != certs[k].certificate_id);
                    }
                }
                c.header.timestamp
            },
            None => self.latest_proposed_batch_timestamp,
        }
    }

    /// Checks that a proposal at `timestamp` comes late enough after the previous one.
    pub fn check_proposal_timestamp(&self, storage: &Storage, previous_round: u64, timestamp: i64) -> (r: Result<(), ProposeSkip>)
        requires
            storage.wf(),
        ensures
            match r {
                Ok(()) => timestamp_fault(previous_timestamp(*storage, previous_round, self.address_view(), self.latest_timestamp_view()), timestamp) is None,
                Err(e) => timestamp_fault(previous_timestamp(*storage, previous_round, self.address_view(), self.latest_timestamp_view()), timestamp) == Some(e),
            },
    {
        let previous = self.previous_proposal_timestamp(storage, previous_round);
        check_timestamp_delay(previous, timestamp)
    }

    /// Drains each worker in turn for up to `MAX_TRANSMISSIONS_PER_BATCH / k`
    /// admitted transmissions (see `admits`), and returns the batch.
    pub fn select_transmissions(&mut self, storage: &Storage, ledger: &Ledger, rejected: &Vec<TransmissionId>) -> (r: Vec<(TransmissionId, Transmission)>)
        requires
            old(self).wf(),
        ensures
            final(self).wf(),
            r@ == select_over(ready_views(old(self).workers_view()), Seq::empty(), (MAX_TRANSMISSIONS_PER_BATCH / MAX_WORKERS as usize) as nat,
                *storage, *ledger, rejected@),
            r@.len() <= MAX_TRANSMISSIONS_PER_BATCH,
            ready_views(final(self).workers_view()) == drained_readys(ready_views(old(self).workers_view()), Seq::empty(),
                (MAX_TRANSMISSIONS_PER_BATCH / MAX_WORKERS as usize) as nat, *storage, *ledger, rejected@),
            final(self).address_view() == old(self).address_view(),
            final(self).proposal_view() == old(self).proposal_view(),
            final(self).latest_timestamp_view() == old(self).latest_timestamp_view(),
            final(self).lock_view() == old(self).lock_view(),
    {
        let need: usize = MAX_TRANSMISSIONS_PER_BATCH / (MAX_WORKERS as usize);
        let ghost readys = ready_views(self.workers@);
        let ghost n = self.workers@.len() as int;
        let mut taken: Vec<Worker> = Vec::new();
        std::mem::swap(&mut self.workers, &mut taken);
        let mut done: Vec<Worker> = Vec::new();
        let mut batch: Vec<(TransmissionId, Transmission)> = Vec::new();
        proof {
            assert(readys.subrange(0, n) =~= readys);
            lemma_batch_size_bound(readys, *storage, *ledger, rejected@);
        }
        while taken.len() > 0
            invariant
                n == MAX_WORKERS,
                readys.len() == n,
                taken@.len() + done@.len() == n,
                ready_views(taken@) == readys.subrange(n - taken@.len(), n),
                forall|i: int| 0 <= i < taken@.len() ==> (#[trigger] taken@[i]).wf(),
                forall|i: int| 0 <= i < done@.len() ==> (#[trigger] done@[i]).wf(),
                need == MAX_TRANSMISSIONS_PER_BATCH / (MAX_WORKERS as usize),
                select_over(readys, Seq::empty(), need as nat, *storage, *ledger, rejected@)
                    == select_over(readys.subrange(n - taken@.len(), n), batch@, need as nat, *storage, *ledger, rejected@),
                drained_readys(readys, Seq::empty(), need as nat, *storage, *ledger, rejected@)
                    == ready_views(done@) + drained_readys(readys.subrange(n - taken@.len(), n), batch@, need as nat, *storage, *ledger, rejected@),
                self.address == old(self).address,
                self.proposed_batch == old(self).proposed_batch,
                self.latest_proposed_batch_timestamp == old(self).latest_proposed_batch_timestamp,
                self.latest_proposed_round == old(self).latest_proposed_round,
            decreases taken.len(),
        {
            let ghost i = n - taken@.len();
            let mut w = taken.remove(0);
            proof {
                assert(readys[i] == w.ready_view()) by {
                    assert(ready_views(taken@.insert(0, w))[0] == w.ready_view());
                }
                assert(ready_views(taken@) =~= readys.subrange(i + 1, n)) by {
                    assert forall|k: int| 0 <= k < taken@.len() implies ready_views(taken@)[k] == readys.subrange(i + 1, n)[k] by {
                        assert(ready_views(old(self).workers@).subrange(i, n)[k + 1] == readys[i + 1 + k]);
                    }
                }
                assert(readys.subrange(i, n).drop_first() =~= readys.subrange(i + 1, n));
                assert(readys.subrange(i, n)[0] == readys[i]);
            }
            let ghost batch0 = batch@;
            let ghost entries0 = w.ready_view();
            let mut included: usize = 0;
            while included < need && w.num_transmissions() > 0
                invariant
                    w.wf(),
                    included <= need,
                    take_admitted(entries0, batch0, need as nat, *storage, *ledger, rejected@).0
                        == take_admitted(w.ready_view(), batch@, (need - included) as nat, *storage, *ledger, rejected@).0,
                    w.ready_view().len() <= entries0.len(),
                    w.ready_view() == entries0.skip(entries0.len() - w.ready_view().len()),
                    take_admitted(entries0, batch0, need as nat, *storage, *ledger, rejected@).1
                        == (entries0.len() - w.ready_view().len()) + take_admitted(w.ready_view(), batch@, (need - included) as nat, *storage, *ledger, rejected@).1,
                decreases w.ready_view().len(),
            {
                let ghost before = w.ready_view();
                let mut drained = w.drain(1);
                proof {
                    assert(before.skip(1) =~= before.drop_first());
                    assert(drained@.len() == 1);
                    assert(drained@[0] == before[0]);
                    assert(entries0.skip(entries0.len() - before.len() + 1) =~= before.drop_first());
                }
                match drained.pop() {
                    Some(e) => {
                        let (key, t) = e;
                        let tid = key_to_id(key);
                        if joins_batch(tid, &t, &batch, storage, ledger, rejected) {
                            batch.push((tid, t));
                            included = included + 1;
                        }
                    },
                    None => {},
                }
            }
            proof {
                let t = take_admitted(entries0, batch0, need as nat, *storage, *ledger, rejected@);
                assert(t.1 == entries0.len() - w.ready_view().len());
                assert(readys.subrange(i, n)[0] == entries0);
                assert(drained_readys(readys.subrange(i, n), batch0, need as nat, *storage, *ledger, rejected@)
                    == seq![entries0.skip(t.1 as int)] + drained_readys(readys.subrange(i + 1, n), batch@, need as nat, *storage, *ledger, rejected@));
            }
            let ghost done0 = done@;
            done.push(w);
            proof {
                assert(ready_views(done@) =~= ready_views(done0) + seq![w.ready_view()]);
                assert(ready_views(done@) + drained_readys(readys.subrange(i + 1, n), batch@, need as nat, *storage, *ledger, rejected@)
                    =~= ready_views(done0) + (seq![w.ready_view()] + drained_readys(readys.subrange(i + 1, n), batch@, need as nat, *storage, *ledger, rejected@)));
            }
        }
        self.workers = done;
        proof {
            assert(readys.subrange(n, n).len() == 0);
            assert(drained_readys(readys.subrange(n, n), batch@, need as nat, *storage, *ledger, rejected@).len() == 0);
            assert(ready_views(done@) + drained_readys(readys.subrange(n, n), batch@, need as nat, *storage, *ledger, rejected@) =~= ready_views(done@));
        }
        batch
    }
}

/// Each worker's ready entries after `select_over` drained them: the entries that
/// `take_admitted` consumed are gone, the rest keep their order.
pub open spec fn drained_readys(
    readys: Seq<Seq<(ReadyKey, Transmission)>>,
    batch: Seq<(TransmissionId, Transmission)>,
    need: nat,
    storage: Storage,
    ledger: Ledger,
    rejected: Seq<TransmissionId>,
) -> Seq<Seq<(ReadyKey, Transmission)>>
    decreases readys.len(),
{
    if readys.len() == 0 {
        Seq::empty()
    } else {
        let t = take_admitted(readys[0], batch, need, storage, ledger, rejected);
        seq![readys[0].skip(t.1 as int)] + drained_readys(readys.drop_first(), t.0, need, storage, ledger, rejected)
    }
}

/// The number of ready transmissions over the first `n` workers.
pub open spec fn total_ready(ws: Seq<Worker>, n: nat) -> nat
    decreases n,
{
    if n == 0 {
        0
    } else {
        total_ready(ws, (n - 1) as nat) + ws[n - 1].ready_view().len()
    }
}

pub(crate) proof fn lemma_stake_membership(m: Seq<(u64, u64)>, a: Seq<u64>, b: Seq<u64>, n: nat)
    requires
        n <= m.len(),
        forall|x: u64| seq_contains(a, x) <==> seq_contains(b, x),
    ensures
        crate::committee::stake_upto(m, a, n) == crate::committee::stake_upto(m, b, n),
    decreases n,
{
    if n > 0 {
        lemma_stake_membership(m, a, b, (n - 1) as nat);
    }
}

fn copy_u64s(v: &Vec<u64>) -> (r: Vec<u64>)
    ensures
        r@ == v@,
{
    let mut out: Vec<u64> = Vec::new();
    let mut i: usize = 0;
    while i < v.len()
        invariant
            i <= v@.len(),
            out@ == v@.subrange(0, i as int),
        decreases v.len() - i,
    {
        out.push(v[i]);
        i = i + 1;
        assert(out@ =~= v@.subrange(0, i as int));
    }
    assert(v@.subrange(0, v@.len() as int) =~= v@);
    out
}

impl Primary {
    /// Decides whether to propose a batch at the storage's current round and, if so,
    /// drains the workers into a draft: see `propose_fault` for the reasons to skip, in
    /// order, and `select_transmissions` for the draft's transmissions. `connected`
    /// lists the validators this node is connected to, `now` is the current time in
    /// seconds, and `rejected` the transmissions the virtual machine refuses now. On
    /// success the round becomes the latest proposed round.
    pub fn propose_batch(
        &mut self,
        storage: &Storage,
        ledger: &mut Ledger,
        connected: &Vec<u64>,
        now: i64,
        rejected: &Vec<TransmissionId>,
    ) -> (r: Result<BatchDraft, ProposeSkip>)
        requires
            old(self).wf(),
            storage.wf(),
            old(ledger).wf(),
        ensures
            final(self).wf(),
            final(ledger).wf(),
            final(ledger).committees_view() == old(ledger).committees_view(),
            final(ledger).rounds_view() == old(ledger).rounds_view(),
            final(ledger).solutions_view() == old(ledger).solutions_view(),
            final(ledger).transactions_view() == old(ledger).transactions_view(),
            final(self).address_view() == old(self).address_view(),
            final(self).proposal_view() == old(self).proposal_view(),
            match r {
                Err(e) => propose_fault(*storage, *old(ledger), old(self).address_view(), old(self).lock_view(),
                    old(self).latest_timestamp_view(), connected@, now) == Some(e)
                    && final(self).workers_view() == old(self).workers_view()
                    && final(self).lock_view() == old(self).lock_view()
                    && final(self).latest_timestamp_view() == old(self).latest_timestamp_view(),
                Ok(d) => {
                    &&& propose_fault(*storage, *old(ledger), old(self).address_view(), old(self).lock_view(),
                        old(self).latest_timestamp_view(), connected@, now) is None
                    &&& d.round == storage.current_round_view()
                    &&& d.timestamp == now
                    &&& d.transmissions@ == select_over(ready_views(old(self).workers_view()), Seq::empty(),
                        (MAX_TRANSMISSIONS_PER_BATCH / MAX_WORKERS as usize) as nat, *storage, *final(ledger), rejected@)
                    &&& d.transmissions@.len() <= MAX_TRANSMISSIONS_PER_BATCH
                    &&& ready_views(final(self).workers_view()) == drained_readys(ready_views(old(self).workers_view()), Seq::empty(),
                        (MAX_TRANSMISSIONS_PER_BATCH / MAX_WORKERS as usize) as nat, *storage, *final(ledger), rejected@)
                    &&& forall|id: u64| seq_contains(d.previous_certificate_ids@, id) <==> crate::storage::has_certificate_at(
                        storage.certs_view(), (d.round - 1) as u64, id)
                    &&& final(self).lock_view() == d.round
                    &&& final(self).latest_timestamp_view() == now
                },
            },
    {
        let round = storage.current_round();
        let previous = round.saturating_sub(1);
        if round == 0 {
            return Err(ProposeSkip::RoundZero);
        }
        if round < self.latest_proposed_round {
            return Err(ProposeSkip::BehindProposalCache);
        }
        match self.check_proposal_timestamp(storage, previous, now) {
            Ok(()) => {},
            Err(e) => {
                return Err(e);
            },
        }
        if storage.contains_certificate_in_round_from(round, self.address) {
            return Err(ProposeSkip::AlreadyCertified);
        }
        if round == self.latest_proposed_round {
            return Err(ProposeSkip::AlreadyProposed);
        }
        let ghost l0 = *ledger;
        let pos = match ledger.get_committee_lookback_for_round(round) {
            Ok(p) => p,
            Err(_) => {
                return Err(ProposeSkip::MissingCommittee);
            },
        };
        let mut voters = copy_u64s(connected);
        voters.push(self.address);
        if !ledger.committee_at(pos).is_quorum_threshold_reached(&voters) {
            return Err(ProposeSkip::NotEnoughConnections);
        }
        let ghost mut witness: Seq<u64> = Seq::empty();
        let ghost mut wpos: int = 0;
        if previous > 0 {
            let ppos = match ledger.get_committee_lookback_for_round(previous) {
                Ok(p) => p,
                Err(_) => {
                    return Err(ProposeSkip::MissingCommittee);
                },
            };
            let authors = storage.authors_for_round(previous);
            let reached = ledger.committee_at(ppos).is_quorum_threshold_reached(&authors);
            proof {
                let m = ledger.committees_view()[ppos as int].members_view();
                assert(authors_in(*storage, previous, authors@));
                assert forall|other: Seq<u64>| authors_in(*storage, previous, other) implies stake_of(m, other) == stake_of(m, authors@) by {
                    lemma_stake_membership(m, other, authors@, m.len());
                }
            }
            if !reached {
                return Err(ProposeSkip::PreviousRoundWithoutQuorum);
            }
            proof {
                witness = authors@;
                wpos = ppos as int;
            }
        }
        proof {
            let cs = l0.committees_view();
            let latest = l0.latest_round_spec();
            assert(committee_position(cs, latest, lookback_round(round)) == Some(pos as int));
            if previous > 0 {
                assert(committee_position(cs, latest, lookback_round(previous)) == Some(wpos));
                assert(authors_in(*storage, previous, witness));
                assert(stake_of(cs[wpos].members_view(), witness) >= cs[wpos].quorum_threshold_spec());
                assert(previous_round_has_quorum(*storage, cs, latest, previous));
            }
        }
        let committee_id = ledger.committee_at(pos).id();
        let transmissions = self.select_transmissions(storage, ledger, rejected);
        let previous_certificate_ids = storage.certificate_ids_for_round(previous);
        self.latest_proposed_round = round;
        self.latest_proposed_batch_timestamp = now;
        Ok(BatchDraft { round, timestamp: now, committee_id, transmissions, previous_certificate_ids })
    }

    /// Makes `proposal` the current proposal.
    pub fn set_proposal(&mut self, proposal: Proposal)
        requires
            old(self).wf(),
            proposal.wf(),
        ensures
            final(self).wf(),
            final(self).proposal_view() == Some(proposal),
            final(self).workers_view() == old(self).workers_view(),
            final(self).lock_view() == old(self).lock_view(),
            final(self).latest_timestamp_view() == old(self).latest_timestamp_view(),
            final(self).address_view() == old(self).address_view(),
    {
        self.proposed_batch = Some(proposal);
    }

    /// Adds a signature to the current proposal for batch `batch_id`, given whether it
    /// verifies, and returns whether the proposal now reaches the quorum threshold.
    pub fn process_batch_signature(
        &mut self,
        batch_id: u64,
        signer: u64,
        committee: &Committee,
        signature_valid: bool,
    ) -> (r: Result<bool, ProposalError>)
        requires
            old(self).wf(),
            committee.wf(),
        ensures
            final(self).wf(),
            final(self).workers_view() == old(self).workers_view(),
            final(self).lock_view() == old(self).lock_view(),
            final(self).address_view() == old(self).address_view(),
            (old(self).proposal_view() matches Some(p) && p.header_view().batch_id == batch_id) ==> (r is Ok <==> (signature_valid
                && exists|i: int| 0 <= i < committee.members_view().len() && committee.members_view()[i].0 == signer)),
            match old(self).proposal_view() {
                None => r == Err::<bool, ProposalError>(ProposalError::UnknownBatch),
                Some(p) => if p.header_view().batch_id != batch_id {
                    r == Err::<bool, ProposalError>(ProposalError::UnknownBatch)
                } else {
                    match r {
                        Ok(q) => final(self).proposal_view() matches Some(p2) && p2.header_view() == p.header_view()
                            && p2.transmissions_view() == p.transmissions_view()
                            && p2.signers_view() == if seq_contains(p.signers_view(), signer) {
                                p.signers_view()
                            } else {
                                p.signers_view().push(signer)
                            }
                            && q == (stake_of(committee.members_view(), p2.signers_view().push(p.header_view().author))
                                >= committee.quorum_threshold_spec()),
                        Err(e) => final(self).proposal_view() == old(self).proposal_view() && if !(exists|i: int|
                            0 <= i < committee.members_view().len() && committee.members_view()[i].0 == signer) {
                            e == ProposalError::NotCommitteeMember
                        } else {
                            !signature_valid && e == ProposalError::InvalidSignature
                        },
                    }
                },
            },
    {
        match self.proposed_batch.take() {
            None => Err(ProposalError::UnknownBatch),
            Some(mut p) => {
                if p.batch_id() != batch_id {
                    self.proposed_batch = Some(p);
                    return Err(ProposalError::UnknownBatch);
                }
                let added = p.add_signature(signer, committee, signature_valid);
                let reached = p.is_quorum_threshold_reached(committee);
                self.proposed_batch = Some(p);
                match added {
                    Ok(()) => Ok(reached),
                    Err(e) => Err(e),
                }
            },
        }
    }

    /// Puts transmissions back into the workers they belong to, in order, each unless
    /// it is held somewhere already (see `reinsert_fold`).
    pub fn reinsert_transmissions_into_workers(
        &mut self,
        transmissions: Vec<(TransmissionId, Transmission)>,
        storage: &Storage,
        ledger: &Ledger,
    )
        requires
            old(self).wf(),
        ensures
            final(self).wf(),
            final(self).workers_view().len() == old(self).workers_view().len(),
            forall|w: int| 0 <= w < old(self).workers_view().len() ==> #[trigger] final(self).workers_view()[w].ready_view()
                == reinsert_fold(old(self).workers_view()[w].ready_view(), transmissions@, w, old(self).proposal_txs(), *storage, *ledger),
            final(self).address_view() == old(self).address_view(),
            final(self).proposal_view() == old(self).proposal_view(),
            final(self).lock_view() == old(self).lock_view(),
            final(self).latest_timestamp_view() == old(self).latest_timestamp_view(),
    {
        let ghost orig = transmissions@;
        let ghost ws0 = self.workers@;
        let mut transmissions = transmissions;
        let none: Vec<(TransmissionId, Transmission)> = Vec::new();
        let proposed = match &self.proposed_batch {
            Some(p) => p.transmissions(),
            None => &none,
        };
        let ghost k: int = 0;
        assert(orig.skip(0) =~= orig);
        while transmissions.len() > 0
            invariant
                self.wf(),
                self.address == old(self).address,
                self.proposed_batch == old(self).proposed_batch,
                self.latest_proposed_round == old(self).latest_proposed_round,
                self.latest_proposed_batch_timestamp == old(self).latest_proposed_batch_timestamp,
                proposed@ == old(self).proposal_txs(),
                ws0 == old(self).workers@,
                0 <= k <= orig.len(),
                transmissions@ == orig.skip(k),
                self.workers@.len() == ws0.len(),
                forall|w: int| 0 <= w < ws0.len() ==> #[trigger] self.workers@[w].ready_view()
                    == reinsert_fold(ws0[w].ready_view(), orig.take(k), w, proposed@, *storage, *ledger),
            decreases transmissions.len(),
        {
            let ghost before = self.workers@;
            let (tid, t) = transmissions.remove(0);
            let idx = assign_to_worker(tid, MAX_WORKERS) as usize;
            let mut w = self.workers.remove(idx);
            let _ = w.reinsert(tid, t, proposed, storage, ledger);
            self.workers.insert(idx, w);
            proof {
                assert(orig[k] == (tid, t));
                assert(self.workers@ =~= before.update(idx as int, w));
                assert(orig.take(k + 1).drop_last() =~= orig.take(k));
                assert(orig.take(k + 1).last() == (tid, t));
                assert(transmissions@ =~= orig.skip(k + 1));
                k = k + 1;
            }
        }
        proof {
            assert(orig.take(k) =~= orig);
        }
    }
}

/// The ready entries of worker `w` after putting back `txs` in order: each
/// transmission that belongs to `w` is appended unless it is held by then.
pub open spec fn reinsert_fold(
    ready: Seq<(ReadyKey, Transmission)>,
    txs: Seq<(TransmissionId, Transmission)>,
    w: int,
    proposed: Seq<(TransmissionId, Transmission)>,
    storage: Storage,
    ledger: Ledger,
) -> Seq<(ReadyKey, Transmission)>
    decreases txs.len(),
{
    if txs.len() == 0 {
        ready
    } else {
        let prev = reinsert_fold(ready, txs.drop_last(), w, proposed, storage, ledger);
        let e = txs.last();
        if worker_of(e.0, MAX_WORKERS) as int == w && !crate::worker::held_anywhere(prev, proposed, storage, ledger, e.0) {
            prev.push((crate::types::key_of(e.0), e.1))
        } else {
            prev
        }
    }
}

/// `copies` holds copies of `txs`, in order.
pub open spec fn copies_of(copies: Seq<(TransmissionId, Transmission)>, txs: Seq<(TransmissionId, Transmission)>) -> bool {
    copies.len() == txs.len() && forall|i: int| 0 <= i < txs.len() ==> #[trigger] copies[i].0 == txs[i].0
        && crate::types::same_transmission(copies[i].1, txs[i].1)
}

fn duplicate_pairs(v: &Vec<(TransmissionId, Transmission)>) -> (r: Vec<(TransmissionId, Transmission)>)
    ensures
        r@.len() == v@.len(),
        forall|i: int| 0 <= i < v@.len() ==> #[trigger] r@[i].0 == v@[i].0 && crate::types::same_transmission(r@[i].1, v@[i].1),
{
    let mut out: Vec<(TransmissionId, Transmission)> = Vec::new();
    let mut i: usize = 0;
    while i < v.len()
        invariant
            i <= v@.len(),
            out@.len() == i,
            forall|k: int| 0 <= k < i ==> #[trigger] out@[k].0 == v@[k].0 && crate::types::same_transmission(out@[k].1, v@[k].1),
        decreases v.len() - i,
    {
        out.push((v[i].0, v[i].1.duplicate()));
        i = i + 1;
    }
    out
}

impl Primary {
    /// Certifies the current proposal once its signatures reach the quorum of
    /// `committee`: the certificate, with identifier `certificate_id`, is inserted into
    /// storage with the proposal's transmissions, and the proposal is cleared. If
    /// storage refuses it, the transmissions go back to the workers. Returns the round
    /// of the certificate.
    pub fn certify_proposal(
        &mut self,
        storage: &mut Storage,
        ledger: &Ledger,
        committee: &Committee,
        certificate_id: u64,
    ) -> (r: Result<u64, ProposalError>)
        requires
            old(self).wf(),
            old(storage).wf(),
            committee.wf(),
        ensures
            final(self).wf(),
            final(storage).wf(),
            final(storage).current_round_view() == old(storage).current_round_view(),
            final(self).address_view() == old(self).address_view(),
            final(self).lock_view() == old(self).lock_view(),
            match old(self).proposal_view() {
                None => r == Err::<u64, ProposalError>(ProposalError::UnknownBatch) && *final(storage) == *old(storage),
                Some(p) => if !(stake_of(committee.members_view(), p.signers_view().push(p.header_view().author))
                    >= committee.quorum_threshold_spec()) {
                    r == Err::<u64, ProposalError>(ProposalError::QuorumNotReached) && *final(storage) == *old(storage)
                        && final(self).proposal_view() == old(self).proposal_view()
                } else {
                    final(self).proposal_view() is None && match r {
                        Ok(round) => round == p.header_view().round
                            && old(storage).insert_fault(
                                BatchCertificate { certificate_id, header: p.header_view(), signers: final(storage).certs_view().last().signers },
                                p.transmissions_view(),
                            ) is None
                            && final(storage).certs_view().len() == old(storage).certs_view().len() + 1
                            && final(storage).certs_view().last().certificate_id == certificate_id
                            && final(storage).certs_view().last().header == p.header_view()
                            && final(storage).certs_view().last().signers@ == p.signers_view()
                            && forall|k: int| 0 <= k < p.header_view().transmission_ids@.len() ==> has_key(
                                final(storage).txs_view(), #[trigger] p.header_view().transmission_ids@[k]),
                        Err(ProposalError::Storage(e)) => *final(storage) == *old(storage)
                            && (exists|c: BatchCertificate| c.certificate_id == certificate_id && c.header == p.header_view()
                                && #[trigger] old(storage).insert_fault(c, p.transmissions_view()) == Some(e))
                            && final(self).workers_view().len() == old(self).workers_view().len()
                            && (exists|copies: Seq<(TransmissionId, Transmission)>| #[trigger] copies_of(copies, p.transmissions_view())
                                && forall|w: int| 0 <= w < old(self).workers_view().len() ==> final(self).workers_view()[w].ready_view()
                                    == reinsert_fold(old(self).workers_view()[w].ready_view(), copies, w, Seq::empty(), *old(storage), *ledger)),
                        Err(_) => false,
                    }
                },
            },
    {
        let p = match self.proposed_batch.take() {
            None => {
                return Err(ProposalError::UnknownBatch);
            },
            Some(p) => p,
        };
        if !p.is_quorum_threshold_reached(committee) {
            self.proposed_batch = Some(p);
            return Err(ProposalError::QuorumNotReached);
        }
        let round = p.round();
        let copies = duplicate_pairs(p.transmissions());
        let (certificate, transmissions) = p.into_certificate(certificate_id);
        let ghost cert_g = certificate;
        let ghost transmissions_g = transmissions@;
        match storage.insert_certificate(certificate, transmissions) {
            Ok(()) => {
                proof {
                    assert(storage.certs_view().last() == cert_g);
                    assert(cert_g == (BatchCertificate { certificate_id, header: cert_g.header, signers: cert_g.signers }));
                }
                Ok(round)
            },
            Err(e) => {
                proof {
                    assert(old(storage).insert_fault(cert_g, transmissions_g) == Some(e));
                    assert(copies_of(copies@, transmissions_g));
                }
                self.reinsert_transmissions_into_workers(copies, storage, ledger);
                Err(ProposalError::Storage(e))
            },
        }
    }

    /// Moves storage towards `next_round`. If it is within `max_gc_rounds` of the
    /// current round, storage fast-forwards to the round before it; then, if storage is
    /// still below `next_round`, it advances one more round. A proposal for a round
    /// below the new current round expires. Returns the new current round.
    pub fn try_increment_to_the_next_round(&mut self, storage: &mut Storage, next_round: u64) -> (r: u64)
        requires
            old(self).wf(),
            old(storage).wf(),
        ensures
            final(self).wf(),
            final(storage).wf(),
            r == final(storage).current_round_view(),
            final(storage).current_round_view() >= old(storage).current_round_view(),
            final(storage).current_round_view() == if old(storage).current_round_view() as int + old(storage).max_gc_rounds_view() as int >= next_round as int {
                if next_round > old(storage).current_round_view() { next_round } else { old(storage).current_round_view() }
            } else {
                if next_round > old(storage).current_round_view() {
                    (old(storage).current_round_view() + 1) as u64
                } else {
                    old(storage).current_round_view()
                }
            },
            final(storage).max_gc_rounds_view() == old(storage).max_gc_rounds_view(),
            final(self).workers_view() == old(self).workers_view(),
            final(self).address_view() == old(self).address_view(),
            final(self).lock_view() == old(self).lock_view(),
            final(self).latest_timestamp_view() == old(self).latest_timestamp_view(),
            final(self).proposal_view() == match old(self).proposal_view() {
                Some(p) => if p.header_view().round < final(storage).current_round_view() {
                    None
                } else {
                    Some(p)
                },
                None => None,
            },
    {
        let current = storage.current_round();
        if (current as u128) + (storage.max_gc_rounds() as u128) >= next_round as u128 {
            let target = next_round.saturating_sub(1);
            let mut ff = current;
            while ff < target
                invariant
                    storage.wf(),
                    ff == storage.current_round_view(),
                    ff >= current,
                    current == old(storage).current_round_view(),
                    target == next_round.saturating_sub(1),
                    ff <= target || ff == current,
                    storage.max_gc_rounds_view() == old(storage).max_gc_rounds_view(),
                    self.wf(),
                decreases target - ff,
            {
                ff = storage.increment_to_next_round(ff);
            }
        }
        let now = storage.current_round();
        if now < next_round {
            storage.increment_to_next_round(now);
        }
        let advanced = storage.current_round();
        // A proposal for a round the storage has moved past expires.
        let expired = match &self.proposed_batch {
            Some(p) => p.round() < advanced,
            None => false,
        };
        if expired {
            self.proposed_batch = None;
        }
        advanced
    }
}

impl Primary {
    /// Admits an unconfirmed solution into the worker it belongs to (see
    /// `Worker::process_unconfirmed_solution`); the current proposal's transmissions
    /// count as held.
    pub fn process_unconfirmed_solution(
        &mut self,
        solution_id: u64,
        solution: crate::types::Payload,
        puzzle_accepts: bool,
        storage: &Storage,
        ledger: &Ledger,
    ) -> (r: Result<(), WorkerError>)
        requires
            old(self).wf(),
        ensures
            final(self).wf(),
            final(self).address_view() == old(self).address_view(),
            final(self).proposal_view() == old(self).proposal_view(),
            final(self).lock_view() == old(self).lock_view(),
            final(self).latest_timestamp_view() == old(self).latest_timestamp_view(),
            ({
                let tid = TransmissionId { kind: TransmissionKind::Solution, id: solution_id, checksum: solution.checksum };
                let w = worker_of(tid, MAX_WORKERS) as int;
                &&& forall|i: int| 0 <= i < MAX_WORKERS && i != w ==> #[trigger] final(self).workers_view()[i] == old(self).workers_view()[i]
                &&& final(self).workers_view()[w].ready_view() == match r {
                    Ok(()) => old(self).workers_view()[w].ready_view().push(
                        (crate::types::key_of(tid), Transmission::Solution(solution))),
                    Err(_) => old(self).workers_view()[w].ready_view(),
                }
                &&& match r {
                    Err(WorkerError::DuplicateTransmission) => old(self).workers_view()[w].holds(old(self).proposal_txs(), *storage, *ledger, tid),
                    Err(WorkerError::Rejected(e)) => !old(self).workers_view()[w].holds(old(self).proposal_txs(), *storage, *ledger, tid)
                        && solution_fault(solution_id, solution, puzzle_accepts) == Some(e),
                    Err(_) => false,
                    Ok(()) => !old(self).workers_view()[w].holds(old(self).proposal_txs(), *storage, *ledger, tid)
                        && solution_fault(solution_id, solution, puzzle_accepts) is None,
                }
            }),
    {
        let tid = TransmissionId::solution(solution_id, solution.checksum);
        let idx = assign_to_worker(tid, MAX_WORKERS) as usize;
        let mut w = self.workers.remove(idx);
        let r = match &self.proposed_batch {
            Some(p) => w.process_unconfirmed_solution(solution_id, solution, puzzle_accepts, p.transmissions(), storage, ledger),
            None => {
                let none: Vec<(TransmissionId, Transmission)> = Vec::new();
                w.process_unconfirmed_solution(solution_id, solution, puzzle_accepts, &none, storage, ledger)
            },
        };
        self.workers.insert(idx, w);
        r
    }

    /// Admits an unconfirmed transaction into the worker it belongs to (see
    /// `Worker::process_unconfirmed_transaction`); the current proposal's transmissions
    /// count as held.
    pub fn process_unconfirmed_transaction(
        &mut self,
        transaction_id: u64,
        transaction: crate::types::Payload,
        vm_accepts: bool,
        storage: &Storage,
        ledger: &Ledger,
    ) -> (r: Result<(), WorkerError>)
        requires
            old(self).wf(),
        ensures
            final(self).wf(),
            final(self).address_view() == old(self).address_view(),
            final(self).proposal_view() == old(self).proposal_view(),
            final(self).lock_view() == old(self).lock_view(),
            final(self).latest_timestamp_view() == old(self).latest_timestamp_view(),
            ({
                let tid = TransmissionId { kind: TransmissionKind::Transaction, id: transaction_id, checksum: transaction.checksum };
                let w = worker_of(tid, MAX_WORKERS) as int;
                &&& forall|i: int| 0 <= i < MAX_WORKERS && i != w ==> #[trigger] final(self).workers_view()[i] == old(self).workers_view()[i]
                &&& final(self).workers_view()[w].ready_view() == match r {
                    Ok(()) => old(self).workers_view()[w].ready_view().push(
                        (crate::types::key_of(tid), Transmission::Transaction(transaction))),
                    Err(_) => old(self).workers_view()[w].ready_view(),
                }
                &&& match r {
                    Err(WorkerError::DuplicateTransmission) => old(self).workers_view()[w].holds(old(self).proposal_txs(), *storage, *ledger, tid),
                    Err(WorkerError::Rejected(e)) => !old(self).workers_view()[w].holds(old(self).proposal_txs(), *storage, *ledger, tid)
                        && transaction_fault(transaction_id, transaction, vm_accepts) == Some(e),
                    Err(_) => false,
                    Ok(()) => !old(self).workers_view()[w].holds(old(self).proposal_txs(), *storage, *ledger, tid)
                        && transaction_fault(transaction_id, transaction, vm_accepts) is None,
                }
            }),
    {
        let tid = TransmissionId::transaction(transaction_id, transaction.checksum);
        let idx = assign_to_worker(tid, MAX_WORKERS) as usize;
        let mut w = self.workers.remove(idx);
        let r = match &self.proposed_batch {
            Some(p) => w.process_unconfirmed_transaction(transaction_id, transaction, vm_accepts, p.transmissions(), storage, ledger),
            None => {
                let none: Vec<(TransmissionId, Transmission)> = Vec::new();
                w.process_unconfirmed_transaction(transaction_id, transaction, vm_accepts, &none, storage, ledger)
            },
        };
        self.workers.insert(idx, w);
        r
    }
}

/// Why a batch header or certificate from a peer was not processed.
#[derive(Clone, Copy, Debug, PartialEq, Eq, Structural)]
pub enum SyncError {
    /// The round is at or below the GC round.
    StaleRound,
    /// The node is syncing and takes no peer batches meanwhile.
    NotSynced,
    /// No committee is known for the round's lookback.
    MissingCommittee,
    /// A transmission of the header is held nowhere locally.
    MissingTransmission,
    /// Storage refused the certificate.
    Storage(StorageError),
}

/// The previous certificates of a header at `round` that must be fetched: none for
/// round 1 or for rounds at most one above the GC round; otherwise those that neither
/// the ledger nor storage holds.
pub open spec fn previous_missing(storage: Storage, ledger: Ledger, header: BatchHeader, id: u64) -> bool {
    &&& header.round != 1
    &&& header.round > storage.gc_round_view() as int + 1
    &&& seq_contains(header.previous_certificate_ids@, id)
    &&& !seq_contains(ledger.certificates_view(), id)
    &&& !has_certificate(storage.certs_view(), id)
}

/// The transmissions of a header that storage lacks: none if the round is at or below
/// the GC round or storage already holds the batch.
pub open spec fn transmission_missing(storage: Storage, header: BatchHeader, tid: TransmissionId) -> bool {
    &&& header.round > storage.gc_round_view()
    &&& !crate::storage::has_batch(storage.certs_view(), header.batch_id)
    &&& seq_contains(header.transmission_ids@, tid)
    &&& !has_key(storage.txs_view(), tid)
}

/// Returns the previous certificates of `header` to fetch from the peer.
pub fn missing_previous_certificate_ids(storage: &Storage, ledger: &Ledger, header: &BatchHeader) -> (r: Vec<u64>)
    ensures
        forall|id: u64| seq_contains(r@, id) <==> previous_missing(*storage, *ledger, *header, id),
{
    let mut out: Vec<u64> = Vec::new();
    if header.round == 1 || (header.round as u128) <= (storage.gc_round() as u128) + 1 {
        return out;
    }
    let mut i: usize = 0;
    while i < header.previous_certificate_ids.len()
        invariant
            header.round != 1,
            header.round > storage.gc_round_view() as int + 1,
            i <= header.previous_certificate_ids@.len(),
            forall|id: u64| seq_contains(out@, id) <==> (exists|k: int| 0 <= k < i && #[trigger] header.previous_certificate_ids@[k] == id)
                && !seq_contains(ledger.certificates_view(), id) && !has_certificate(storage.certs_view(), id),
        decreases header.previous_certificate_ids.len() - i,
    {
        let id = header.previous_certificate_ids[i];
        let ghost before = out@;
        if !ledger.contains_certificate(id) && !storage.contains_certificate(id) {
            out.push(id);
        }
        proof {
            assert forall|x: u64| seq_contains(out@, x) <==> (exists|k: int| 0 <= k < i + 1 && #[trigger] header.previous_certificate_ids@[k] == x)
                && !seq_contains(ledger.certificates_view(), x) && !has_certificate(storage.certs_view(), x) by {
                if seq_contains(out@, x) && !seq_contains(before, x) {
                    let j = choose|j: int| 0 <= j < out@.len() && out@[j] == x;
                    assert(j == before.len());
                }
                if seq_contains(before, x) {
                    let j = choose|j: int| 0 <= j < before.len() && before[j] == x;
                    assert(out@[j] == x);
                }
                if header.previous_certificate_ids@[i as int] == x && !seq_contains(ledger.certificates_view(), x)
                    && !has_certificate(storage.certs_view(), x) {
                    assert(out@[out@.len() - 1] == x);
                }
            }
        }
        i = i + 1;
    }
    proof {
        assert forall|id: u64| seq_contains(out@, id) <==> previous_missing(*storage, *ledger, *header, id) by {
            if seq_contains(header.previous_certificate_ids@, id) {
                let k = choose|k: int| 0 <= k < header.previous_certificate_ids@.len() && header.previous_certificate_ids@[k] == id;
                assert(header.previous_certificate_ids@[k] == id);
            }
        }
    }
    out
}

/// Returns the transmissions of `header` that storage lacks.
pub fn missing_transmission_ids(storage: &Storage, header: &BatchHeader) -> (r: Vec<TransmissionId>)
    ensures
        forall|tid: TransmissionId| seq_contains(r@, tid) <==> transmission_missing(*storage, *header, tid),
{
    let mut out: Vec<TransmissionId> = Vec::new();
    if header.round <= storage.gc_round() || storage.contains_batch(header.batch_id) {
        return out;
    }
    let mut i: usize = 0;
    while i < header.transmission_ids.len()
        invariant
            header.round > storage.gc_round_view(),
            !crate::storage::has_batch(storage.certs_view(), header.batch_id),
            i <= header.transmission_ids@.len(),
            forall|tid: TransmissionId| seq_contains(out@, tid) <==> (exists|k: int| 0 <= k < i && #[trigger] header.transmission_ids@[k] == tid)
                && !has_key(storage.txs_view(), tid),
        decreases header.transmission_ids.len() - i,
    {
        let tid = header.transmission_ids[i];
        let ghost before = out@;
        if !storage.contains_transmission(tid) {
            out.push(tid);
        }
        proof {
            assert forall|x: TransmissionId| seq_contains(out@, x) <==> (exists|k: int| 0 <= k < i + 1 && #[trigger] header.transmission_ids@[k] == x)
                && !has_key(storage.txs_view(), x) by {
                if seq_contains(out@, x) && !seq_contains(before, x) {
                    let j = choose|j: int| 0 <= j < out@.len() && out@[j] == x;
                    assert(j == before.len());
                }
                if seq_contains(before, x) {
                    let j = choose|j: int| 0 <= j < before.len() && before[j] == x;
                    assert(out@[j] == x);
                }
                if header.transmission_ids@[i as int] == x && !has_key(storage.txs_view(), x) {
                    assert(out@[out@.len() - 1] == x);
                }
            }
        }
        i = i + 1;
    }
    proof {
        assert forall|tid: TransmissionId| seq_contains(out@, tid) <==> transmission_missing(*storage, *header, tid) by {
            if seq_contains(header.transmission_ids@, tid) {
                let k = choose|k: int| 0 <= k < header.transmission_ids@.len() && header.transmission_ids@[k] == tid;
                assert(header.transmission_ids@[k] == tid);
            }
        }
    }
    out
}

/// The authors of storage's certificates of `round` hold a quorum of the stake of the
/// round's committee lookback.
pub open spec fn round_has_quorum(storage: Storage, ledger: Ledger, round: u64) -> bool {
    committee_position(ledger.committees_view(), ledger.latest_round_spec(), lookback_round(round)) is Some
        && previous_round_has_quorum(storage, ledger.committees_view(), ledger.latest_round_spec(), round)
}

/// Returns whether storage's certificates of `round` reach the quorum of its committee
/// lookback; fails if no committee is known for it.
pub fn is_round_quorum_reached(storage: &Storage, ledger: &mut Ledger, round: u64) -> (r: Result<bool, SyncError>)
    requires
        storage.wf(),
        old(ledger).wf(),
    ensures
        final(ledger).wf(),
        final(ledger).committees_view() == old(ledger).committees_view(),
        final(ledger).rounds_view() == old(ledger).rounds_view(),
        final(ledger).solutions_view() == old(ledger).solutions_view(),
        final(ledger).transactions_view() == old(ledger).transactions_view(),
        final(ledger).certificates_view() == old(ledger).certificates_view(),
        final(ledger).hashes_view() == old(ledger).hashes_view(),
        match r {
            Err(e) => e == SyncError::MissingCommittee && committee_position(old(ledger).committees_view(),
                old(ledger).latest_round_spec(), lookback_round(round)) is None,
            Ok(b) => committee_position(old(ledger).committees_view(), old(ledger).latest_round_spec(), lookback_round(round)) is Some
                && b == round_has_quorum(*storage, *old(ledger), round),
        },
{
    let pos = match ledger.get_committee_lookback_for_round(round) {
        Ok(p) => p,
        Err(_) => {
            return Err(SyncError::MissingCommittee);
        },
    };
    let authors = storage.authors_for_round(round);
    let reached = ledger.committee_at(pos).is_quorum_threshold_reached(&authors);
    proof {
        let m = ledger.committees_view()[pos as int].members_view();
        assert(authors_in(*storage, round, authors@));
        assert forall|other: Seq<u64>| authors_in(*storage, round, other) implies stake_of(m, other) == stake_of(m, authors@) by {
            lemma_stake_membership(m, other, authors@, m.len());
        }
    }
    Ok(reached)
}

/// Returns the latest round, at most `storage`'s current round and at least 1, in
/// which `author` has a certificate in storage.
pub fn latest_round_with_certificate_from(storage: &Storage, author: u64) -> (r: Option<u64>)
    ensures
        match r {
            Some(round) => 1 <= round <= storage.current_round_view() && has_certificate_from(storage.certs_view(), round, author)
                && forall|q: u64| round < q <= storage.current_round_view() ==> !has_certificate_from(storage.certs_view(), q, author),
            None => forall|q: u64| 1 <= q <= storage.current_round_view() ==> !has_certificate_from(storage.certs_view(), q, author),
        },
{
    let mut round = storage.current_round();
    while round > 0
        invariant
            round <= storage.current_round_view(),
            forall|q: u64| round < q <= storage.current_round_view() ==> !has_certificate_from(storage.certs_view(), q, author),
        decreases round,
    {
        if storage.contains_certificate_in_round_from(round, author) {
            return Some(round);
        }
        round = round - 1;
    }
    None
}

impl Primary {
    /// Handles a batch header from a peer before its certificate is stored: refuses
    /// rounds at or below the GC round, and peer batches while the node syncs (unless
    /// `syncing`, the node's own sync, asks); then, if storage's certificates of the
    /// header's round already reach quorum and the round is ahead, or the round is more
    /// than `max_gc_rounds` ahead, moves storage towards it.
    pub fn sync_with_batch_header(
        &mut self,
        storage: &mut Storage,
        ledger: &mut Ledger,
        batch_round: u64,
        syncing: bool,
        is_synced: bool,
    ) -> (r: Result<(), SyncError>)
        requires
            old(self).wf(),
            old(storage).wf(),
            old(ledger).wf(),
        ensures
            final(self).wf(),
            final(storage).wf(),
            final(ledger).wf(),
            final(ledger).committees_view() == old(ledger).committees_view(),
            final(storage).current_round_view() >= old(storage).current_round_view(),
            batch_round <= old(storage).gc_round_view() ==> r == Err::<(), SyncError>(SyncError::StaleRound),
            batch_round > old(storage).gc_round_view() && !syncing && !is_synced ==> r == Err::<(), SyncError>(SyncError::NotSynced),
            r is Ok ==> batch_round > old(storage).gc_round_view() && (syncing || is_synced),
            batch_round > old(storage).gc_round_view() && (syncing || is_synced) ==> (r is Ok <==> committee_position(
                old(ledger).committees_view(), old(ledger).latest_round_spec(), lookback_round(batch_round)) is Some),
            r == Err::<(), SyncError>(SyncError::MissingCommittee) ==> committee_position(
                old(ledger).committees_view(), old(ledger).latest_round_spec(), lookback_round(batch_round)) is None,
            r is Err ==> *final(storage) == *old(storage),
            r matches Err(e) ==> (e == SyncError::StaleRound && batch_round <= old(storage).gc_round_view())
                || (e == SyncError::NotSynced && batch_round > old(storage).gc_round_view() && !syncing && !is_synced)
                || e == SyncError::MissingCommittee,
            r is Ok ==> (if (round_has_quorum(*old(storage), *old(ledger), batch_round) && batch_round > old(storage).current_round_view())
                || batch_round as int > old(storage).current_round_view() as int + old(storage).max_gc_rounds_view() as int {
                final(storage).current_round_view() > old(storage).current_round_view()
            } else {
                *final(storage) == *old(storage)
            }),
    {
        if batch_round <= storage.gc_round() {
            return Err(SyncError::StaleRound);
        }
        if !syncing && !is_synced {
            return Err(SyncError::NotSynced);
        }
        let reached = match is_round_quorum_reached(storage, ledger, batch_round) {
            Ok(b) => b,
            Err(e) => {
                return Err(e);
            },
        };
        let current = storage.current_round();
        let behind_schedule = reached && batch_round > current;
        let far_in_future = (batch_round as u128) > (current as u128) + (storage.max_gc_rounds() as u128);
        if behind_schedule || far_in_future {
            self.try_increment_to_the_next_round(storage, batch_round);
        }
        Ok(())
    }

    /// Stores a certificate from a peer with the transmissions fetched for it, after
    /// `sync_with_batch_header`. Returns `false` if it was skipped: its round is at or
    /// below the GC round, or storage already holds it.
    pub fn sync_with_certificate(
        &mut self,
        storage: &mut Storage,
        ledger: &mut Ledger,
        certificate: BatchCertificate,
        transmissions: Vec<(TransmissionId, Transmission)>,
        syncing: bool,
        is_synced: bool,
    ) -> (r: Result<bool, SyncError>)
        requires
            old(self).wf(),
            old(storage).wf(),
            old(ledger).wf(),
            keys_unique(transmissions@),
        ensures
            final(self).wf(),
            final(storage).wf(),
            final(ledger).wf(),
            (certificate.header.round <= old(storage).gc_round_view() || has_certificate(old(storage).certs_view(), certificate.certificate_id))
                ==> r == Ok::<bool, SyncError>(false) && *final(storage) == *old(storage),
            certificate.header.round > old(storage).gc_round_view() && !has_certificate(old(storage).certs_view(), certificate.certificate_id)
                && !syncing && !is_synced ==> r == Err::<bool, SyncError>(SyncError::NotSynced) && *final(storage) == *old(storage),
            r == Ok::<bool, SyncError>(false) <==> (certificate.header.round <= old(storage).gc_round_view()
                || has_certificate(old(storage).certs_view(), certificate.certificate_id)),
            r matches Err(e) ==> e == SyncError::NotSynced || e == SyncError::MissingCommittee || e is Storage,
            r == Err::<bool, SyncError>(SyncError::MissingCommittee) ==> committee_position(
                old(ledger).committees_view(), old(ledger).latest_round_spec(), lookback_round(certificate.header.round)) is None,
            r matches Err(SyncError::Storage(e)) ==> final(storage).insert_fault(certificate, transmissions@) == Some(e),
            final(storage).current_round_view() >= old(storage).current_round_view(),
            r == Ok::<bool, SyncError>(true) ==> has_certificate(final(storage).certs_view(), certificate.certificate_id)
                && forall|k: int| 0 <= k < certificate.header.transmission_ids@.len() ==> has_key(
                    final(storage).txs_view(), #[trigger] certificate.header.transmission_ids@[k]),
            r == Ok::<bool, SyncError>(true) && certificate.header.round - 1 > final(storage).gc_round_view() ==> forall|k: int|
                0 <= k < certificate.header.previous_certificate_ids@.len() ==> has_certificate_at(final(storage).certs_view(),
                    (certificate.header.round - 1) as u64, #[trigger] certificate.header.previous_certificate_ids@[k]),
    {
        if certificate.header.round <= storage.gc_round() || storage.contains_certificate(certificate.certificate_id) {
            return Ok(false);
        }
        match self.sync_with_batch_header(storage, ledger, certificate.header.round, syncing, is_synced) {
            Ok(()) => {},
            Err(e) => {
                return Err(e);
            },
        }
        let ghost id = certificate.certificate_id;
        let ghost c = certificate;
        let ghost mid = *storage;
        match storage.insert_certificate(certificate, transmissions) {
            Ok(()) => {
                proof {
                    let certs = storage.certs_view();
                    assert(certs[certs.len() - 1] == c);
                    assert(certs[certs.len() - 1].certificate_id == id);
                    if c.header.round - 1 > storage.gc_round_view() {
                        assert(mid.header_well_formed(c));
                        assert forall|k: int| 0 <= k < c.header.previous_certificate_ids@.len() implies has_certificate_at(
                            certs, (c.header.round - 1) as u64, #[trigger] c.header.previous_certificate_ids@[k]) by {
                            assert(has_certificate_at(mid.certs_view(), (c.header.round - 1) as u64, c.header.previous_certificate_ids@[k]));
                            let i = choose|i: int| 0 <= i < mid.certs_view().len() && #[trigger] mid.certs_view()[i].certificate_id
                                == c.header.previous_certificate_ids@[k] && mid.certs_view()[i].header.round == (c.header.round - 1) as u64;
                            assert(certs[i] == mid.certs_view()[i]);
                        }
                    }
                }
                Ok(true)
            },
            Err(e) => Err(SyncError::Storage(e)),
        }
    }
}

impl Primary {
    /// Gathers, from the workers, copies of the transmissions of `header` that storage
    /// lacks (see `transmission_missing`), in header order. Fails if one of them has no
    /// local copy (see `local_copy`) with its worker: fetching from peers is left to
    /// the caller.
    pub fn fetch_missing_transmissions(&self, storage: &Storage, header: &BatchHeader) -> (r: Result<
        Vec<(TransmissionId, Transmission)>,
        SyncError,
    >)
        requires
            self.wf(),
            storage.wf(),
        ensures
            r is Err <==> exists|tid: TransmissionId| #[trigger] transmission_missing(*storage, *header, tid)
                && self.local_copy_of(*storage, tid) is None,
            r matches Err(e) ==> e == SyncError::MissingTransmission,
            r matches Ok(v) ==> forall|tid: TransmissionId| #[trigger] has_key(v@, tid) <==> transmission_missing(*storage, *header, tid),
            r matches Ok(v) ==> forall|k: int| 0 <= k < v@.len() ==> #[trigger] self.local_copy_of(*storage, v@[k].0) is Some
                && crate::types::same_transmission(v@[k].1, self.local_copy_of(*storage, v@[k].0).unwrap()),
    {
        let ids = missing_transmission_ids(storage, header);
        let none: Vec<(TransmissionId, Transmission)> = Vec::new();
        let proposed = match &self.proposed_batch {
            Some(p) => p.transmissions(),
            None => &none,
        };
        assert(proposed@ == self.proposal_txs());
        let mut out: Vec<(TransmissionId, Transmission)> = Vec::new();
        let mut i: usize = 0;
        while i < ids.len()
            invariant
                self.wf(),
                storage.wf(),
                proposed@ == self.proposal_txs(),
                i <= ids@.len(),
                forall|tid: TransmissionId| seq_contains(ids@, tid) <==> transmission_missing(*storage, *header, tid),
                out@.len() == i,
                forall|k: int| 0 <= k < i ==> #[trigger] out@[k].0 == ids@[k],
                forall|k: int| 0 <= k < i ==> #[trigger] self.local_copy_of(*storage, out@[k].0) is Some
                    && crate::types::same_transmission(out@[k].1, self.local_copy_of(*storage, out@[k].0).unwrap()),
            decreases ids.len() - i,
        {
            let tid = ids[i];
            let w = assign_to_worker(tid, MAX_WORKERS) as usize;
            match self.workers[w].get_or_fetch_transmission(tid, proposed, storage) {
                Ok(pair) => out.push(pair),
                Err(_) => {
                    proof {
                        assert(seq_contains(ids@, tid));
                        assert(transmission_missing(*storage, *header, tid));
                    }
                    return Err(SyncError::MissingTransmission);
                },
            }
            i = i + 1;
        }
        proof {
            assert forall|tid: TransmissionId| #[trigger] has_key(out@, tid) <==> transmission_missing(*storage, *header, tid) by {
                if has_key(out@, tid) {
                    let k = choose|k: int| 0 <= k < out@.len() && #[trigger] out@[k].0 == tid;
                    assert(ids@[k] == tid);
                    assert(seq_contains(ids@, tid));
                }
                if transmission_missing(*storage, *header, tid) {
                    assert(seq_contains(ids@, tid));
                    let k = choose|k: int| 0 <= k < ids@.len() && ids@[k] == tid;
                    assert(out@[k].0 == tid);
                }
            }
            assert forall|tid: TransmissionId| #[trigger] transmission_missing(*storage, *header, tid)
                implies self.local_copy_of(*storage, tid) is Some by {
                assert(seq_contains(ids@, tid));
                let k = choose|k: int| 0 <= k < ids@.len() && ids@[k] == tid;
                assert(out@[k].0 == tid);
            }
        }
        Ok(out)
    }
}

/// The number of ready transmissions with kind tag `tag` over the first `n` workers.
pub open spec fn total_tag(ws: Seq<Worker>, tag: u8, n: nat) -> nat
    decreases n,
{
    if n == 0 {
        0
    } else {
        total_tag(ws, tag, (n - 1) as nat) + crate::worker::count_tag(ws[n - 1].ready_view(), tag)
    }
}

/// `x`, or `usize::MAX` if it is larger.
pub open spec fn clamp_usize(x: nat) -> nat {
    if x > usize::MAX {
        usize::MAX as nat
    } else {
        x
    }
}

impl Primary {
    fn num_unconfirmed_with_tag(&self, tag: u8) -> (r: usize)
        requires
            self.wf(),
        ensures
            r == clamp_usize(total_tag(self.workers_view(), tag, self.workers_view().len() as nat)),
    {
        let mut total: usize = 0;
        let mut i: usize = 0;
        while i < self.workers.len()
            invariant
                self.wf(),
                i <= self.workers@.len(),
                total == clamp_usize(total_tag(self.workers@, tag, i as nat)),
            decreases self.workers.len() - i,
        {
            total = total.saturating_add(self.workers[i].num_with_tag(tag));
            i = i + 1;
        }
        total
    }

    /// Returns the number of unconfirmed ratifications over all workers, saturating.
    pub fn num_unconfirmed_ratifications(&self) -> (r: usize)
        requires
            self.wf(),
        ensures
            r == clamp_usize(total_tag(self.workers_view(), 0, self.workers_view().len() as nat)),
    {
        self.num_unconfirmed_with_tag(0)
    }

    /// Returns the number of unconfirmed solutions over all workers, saturating.
    pub fn num_unconfirmed_solutions(&self) -> (r: usize)
        requires
            self.wf(),
        ensures
            r == clamp_usize(total_tag(self.workers_view(), 1, self.workers_view().len() as nat)),
    {
        self.num_unconfirmed_with_tag(1)
    }

    /// Returns the number of unconfirmed transactions over all workers, saturating.
    pub fn num_unconfirmed_transactions(&self) -> (r: usize)
        requires
            self.wf(),
        ensures
            r == clamp_usize(total_tag(self.workers_view(), 2, self.workers_view().len() as nat)),
    {
        self.num_unconfirmed_with_tag(2)
    }

    /// Returns the identifiers in the workers' ready queues, worker by worker.
    pub fn worker_transmission_ids(&self) -> (r: Vec<TransmissionId>)
        ensures
            r@ == all_ready_ids(self.workers_view(), self.workers_view().len() as nat),
    {
        let mut out: Vec<TransmissionId> = Vec::new();
        let mut i: usize = 0;
        while i < self.workers.len()
            invariant
                i <= self.workers@.len(),
                out@ == all_ready_ids(self.workers@, i as nat),
            decreases self.workers.len() - i,
        {
            let ids = self.workers[i].transmission_ids();
            let ghost before = out@;
            let mut k: usize = 0;
            while k < ids.len()
                invariant
                    k <= ids@.len(),
                    out@ == before + ids@.subrange(0, k as int),
                decreases ids.len() - k,
            {
                out.push(ids[k]);
                k = k + 1;
                assert(out@ =~= before + ids@.subrange(0, k as int));
            }
            assert(ids@.subrange(0, ids@.len() as int) =~= ids@);
            i = i + 1;
        }
        out
    }

    /// Removes the solutions from every worker's ready queue.
    pub fn clear_worker_solutions(&mut self)
        requires
            old(self).wf(),
        ensures
            final(self).wf(),
            final(self).workers_view().len() == old(self).workers_view().len(),
            forall|i: int| 0 <= i < old(self).workers_view().len() ==> #[trigger] final(self).workers_view()[i].ready_view()
                == old(self).workers_view()[i].ready_view().filter(crate::worker::not_solution()),
            final(self).address_view() == old(self).address_view(),
            final(self).proposal_view() == old(self).proposal_view(),
            final(self).lock_view() == old(self).lock_view(),
            final(self).latest_timestamp_view() == old(self).latest_timestamp_view(),
    {
        let mut taken: Vec<Worker> = Vec::new();
        std::mem::swap(&mut self.workers, &mut taken);
        let ghost orig = taken@;
        let mut done: Vec<Worker> = Vec::new();
        while taken.len() > 0
            invariant
                orig.len() == MAX_WORKERS,
                forall|i: int| 0 <= i < orig.len() ==> (#[trigger] orig[i]).wf(),
                done@.len() + taken@.len() == orig.len(),
                taken@ == orig.subrange(done@.len() as int, orig.len() as int),
                forall|i: int| 0 <= i < done@.len() ==> (#[trigger] done@[i]).wf()
                    && done@[i].ready_view() == orig[i].ready_view().filter(crate::worker::not_solution()),
                self.address == old(self).address,
                self.proposed_batch == old(self).proposed_batch,
                self.latest_proposed_round == old(self).latest_proposed_round,
                self.latest_proposed_batch_timestamp == old(self).latest_proposed_batch_timestamp,
                orig == old(self).workers@,
            decreases taken.len(),
        {
            let ghost d = done@.len() as int;
            let mut w = taken.remove(0);
            proof {
                assert(w == orig[d]);
                assert(taken@ =~= orig.subrange(d + 1, orig.len() as int));
            }
            w.clear_solutions();
            done.push(w);
        }
        self.workers = done;
    }
}

/// The identifiers in the ready queues of the first `n` workers, worker by worker.
pub open spec fn all_ready_ids(ws: Seq<Worker>, n: nat) -> Seq<TransmissionId>
    decreases n,
{
    if n == 0 {
        Seq::empty()
    } else {
        all_ready_ids(ws, (n - 1) as nat) + Seq::new(ws[n - 1].ready_view().len(), |j: int| id_of_key(ws[n - 1].ready_view()[j].0))
    }
}

impl Primary {
    /// The round saved in the proposal cache at shutdown: the current proposal's round,
    /// or the latest proposed round if there is no proposal.
    pub fn proposal_cache_round(&self) -> (r: u64)
        ensures
            r == match self.proposal_view() {
                Some(p) => p.header_view().round,
                None => self.lock_view(),
            },
    {
        match &self.proposed_batch {
            Some(p) => p.round(),
            None => self.latest_proposed_round,
        }
    }

    /// Hands out the current proposal, if any, to be saved; the primary keeps none.
    pub fn take_proposal(&mut self) -> (r: Option<Proposal>)
        requires
            old(self).wf(),
        ensures
            final(self).wf(),
            r == old(self).proposal_view(),
            final(self).proposal_view() is None,
            final(self).workers_view() == old(self).workers_view(),
            final(self).lock_view() == old(self).lock_view(),
            final(self).address_view() == old(self).address_view(),
    {
        self.proposed_batch.take()
    }

    /// Restores the state saved in the proposal cache at startup: the latest proposed
    /// round and the proposal in progress.
    pub fn restore_proposal_cache(&mut self, latest_round: u64, proposal: Option<Proposal>)
        requires
            old(self).wf(),
            proposal matches Some(p) ==> p.wf(),
        ensures
            final(self).wf(),
            final(self).lock_view() == latest_round,
            final(self).proposal_view() == proposal,
            final(self).workers_view() == old(self).workers_view(),
            final(self).address_view() == old(self).address_view(),
            final(self).latest_timestamp_view() == old(self).latest_timestamp_view(),
    {
        self.latest_proposed_round = latest_round;
        self.proposed_batch = proposal;
    }
}

} // verus!
