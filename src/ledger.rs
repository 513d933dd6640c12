use vstd::prelude::*;

use lru::LruCache;

use crate::committee::{committee_lookback_round, leader_of, lookback_round, Committee};
use crate::subdag::{find_certificate_from, first_from, is_linked, linked, rounds_present, Subdag};
use crate::types::{
    seq_contains, vec_contains_u64, BatchCertificate, Payload, Transmission, TransmissionId,
    TransmissionKind,
};

verus! {

/// The capacity of the cache of recently looked-up committees.
pub const COMMITTEE_CACHE_SIZE: usize = 16;

/// The largest transaction, in bytes, that is decoded.
pub const MAX_TRANSACTION_SIZE: usize = 128000;

/// `lru::LruCache`, held opaquely; its entries are named by `cache_entries`.
#[verifier::external_type_specification]
#[verifier::external_body]
#[verifier::reject_recursive_types(K)]
#[verifier::reject_recursive_types(V)]
#[verifier::reject_recursive_types(S)]
pub struct ExLruCache<K, V, S>(LruCache<K, V, S>);

/// The default hasher of `lru::LruCache`, held opaquely.
#[verifier::external_type_specification]
#[verifier::external_body]
pub struct ExLruHasher(lru::DefaultHasher);

/// What a committee cache holds: for each cached round, the position of its committee.
pub uninterp spec fn cache_entries(c: LruCache<u64, usize>) -> Map<u64, usize>;

/// Relies on `lru::LruCache::new`: a new cache holds no entry.
#[verifier::external_body]
fn cache_new(capacity: usize) -> (r: LruCache<u64, usize>)
    requires
        capacity > 0,
    ensures
        cache_entries(r).dom() == Set::<u64>::empty(),
{
    LruCache::new(std::num::NonZeroUsize::new(capacity).unwrap())
}

/// Relies on `lru::LruCache::get`: it returns the value held for the key, if any, and
/// only moves that entry to the front, so the entries stay the same.
#[verifier::external_body]
fn cache_get(c: &mut LruCache<u64, usize>, round: u64) -> (r: Option<usize>)
    ensures
        cache_entries(*final(c)) == cache_entries(*old(c)),
        r == (if cache_entries(*old(c)).contains_key(round) {
            Some(cache_entries(*old(c))[round])
        } else {
            None
        }),
{
    c.get(&round).copied()
}

/// Relies on `lru::LruCache::push`: afterwards the key holds the value, and every
/// other entry is one that was held before (the least recently used may be evicted).
#[verifier::external_body]
fn cache_push(c: &mut LruCache<u64, usize>, round: u64, position: usize)
    ensures
        cache_entries(*final(c)).contains_key(round),
        cache_entries(*final(c))[round] == position,
        forall|k: u64|
            k != round && #[trigger] cache_entries(*final(c)).contains_key(k) ==> cache_entries(
                *old(c),
            ).contains_key(k) && cache_entries(*final(c))[k] == cache_entries(*old(c))[k],
{
    c.push(round, position);
}

/// Why a ledger query or admission check failed.
#[derive(Clone, Copy, Debug, PartialEq, Eq, Structural)]
pub enum LedgerError {
    /// The ledger was given no committee, or a malformed one.
    InvalidCommittee,
    /// No block at that height.
    MissingBlock,
    /// No committee is known for the round.
    MissingCommittee,
    /// The transmission's kind differs from its identifier's kind.
    MismatchedKind,
    /// The content's own identifier differs from the expected identifier.
    MismatchedId,
    /// The checksum of the bytes differs from the identifier's checksum.
    ChecksumMismatch,
    /// A fee transaction where none is allowed.
    FeeTransaction,
    /// A transaction larger than `MAX_TRANSACTION_SIZE`.
    TooLarge,
    /// The solution is not valid for the current epoch.
    InvalidSolution,
    /// The transaction failed the virtual machine's checks.
    InvalidTransaction,
    /// A block with that hash is already in the ledger.
    DuplicateBlockHash,
    /// A block at that height is already in the ledger.
    DuplicateBlockHeight,
    /// A solution of the block is already in the ledger.
    DuplicateSolution,
    /// The virtual machine rejected the block.
    VmRejected,
    /// The subdag's leader position is out of range.
    MalformedSubdag,
    /// A round between two certificates of the subdag has no certificate.
    MissingRound,
    /// The subdag holds an earlier leader certificate that its own leader reaches:
    /// the block joins two commits.
    SplitSubdag,
    /// The block does not extend the latest block.
    NotNextBlock,
    /// The node is shutting down.
    Shutdown,
}

/// The position of the last committee whose starting round is at or before `round`.
pub open spec fn last_starting_by(cs: Seq<Committee>, round: u64) -> Option<int>
    decreases cs.len(),
{
    if cs.len() == 0 {
        None
    } else if cs.last().starting_round_view() <= round {
        Some(cs.len() - 1)
    } else {
        last_starting_by(cs.drop_last(), round)
    }
}

/// The position of the committee for `round`: for a round the ledger has reached, the
/// committee in force then; for a later round, the current committee if it starts
/// exactly there.
pub open spec fn committee_position(cs: Seq<Committee>, latest_round: u64, round: u64) -> Option<
    int,
> {
    if round <= latest_round {
        last_starting_by(cs, round)
    } else if cs.len() > 0 && cs.last().starting_round_view() == round {
        Some(cs.len() - 1)
    } else {
        None
    }
}

proof fn lemma_last_starting_in_range(cs: Seq<Committee>, round: u64)
    ensures
        match last_starting_by(cs, round) {
            Some(i) => 0 <= i < cs.len() && cs[i].starting_round_view() <= round,
            None => true,
        },
    decreases cs.len(),
{
    if cs.len() > 0 && cs.last().starting_round_view() > round {
        lemma_last_starting_in_range(cs.drop_last(), round);
    }
}

/// Why a transmission is not well-formed for its identifier, if it is not.
pub open spec fn well_formed_fault(tid: TransmissionId, t: Transmission) -> Option<LedgerError> {
    match t {
        Transmission::Ratification => if tid.kind == TransmissionKind::Ratification {
            None
        } else {
            Some(LedgerError::MismatchedKind)
        },
        Transmission::Transaction(p) => if tid.kind != TransmissionKind::Transaction {
            Some(LedgerError::MismatchedKind)
        } else if p.bytes@.len() > MAX_TRANSACTION_SIZE {
            Some(LedgerError::TooLarge)
        } else if p.id != tid.id {
            Some(LedgerError::MismatchedId)
        } else if p.checksum != tid.checksum {
            Some(LedgerError::ChecksumMismatch)
        } else if p.is_fee {
            Some(LedgerError::FeeTransaction)
        } else {
            None
        },
        Transmission::Solution(p) => if tid.kind != TransmissionKind::Solution {
            Some(LedgerError::MismatchedKind)
        } else if p.id != tid.id {
            Some(LedgerError::MismatchedId)
        } else if p.checksum != tid.checksum {
            Some(LedgerError::ChecksumMismatch)
        } else {
            None
        },
    }
}

/// Why a solution fails the basic check, given whether the puzzle accepts it for the
/// current epoch.
pub open spec fn solution_fault(solution_id: u64, p: Payload, puzzle_accepts: bool) -> Option<
    LedgerError,
> {
    if p.id != solution_id {
        Some(LedgerError::MismatchedId)
    } else if !puzzle_accepts {
        Some(LedgerError::InvalidSolution)
    } else {
        None
    }
}

/// Why a transaction fails the basic check, given whether the virtual machine
/// accepts it.
pub open spec fn transaction_fault(transaction_id: u64, p: Payload, vm_accepts: bool) -> Option<
    LedgerError,
> {
    if p.bytes@.len() > MAX_TRANSACTION_SIZE {
        Some(LedgerError::TooLarge)
    } else if p.id != transaction_id {
        Some(LedgerError::MismatchedId)
    } else if p.is_fee {
        Some(LedgerError::FeeTransaction)
    } else if !vm_accepts {
        Some(LedgerError::InvalidTransaction)
    } else {
        None
    }
}

/// Checks that a transmission matches its identifier: same kind, the identifier that
/// its content carries, the checksum of its bytes, no fee transaction, and a
/// transaction no larger than `MAX_TRANSACTION_SIZE`.
pub fn ensure_transmission_is_well_formed(tid: TransmissionId, transmission: &Transmission) -> (r:
    Result<(), LedgerError>)
    ensures
        match r {
            Ok(()) => well_formed_fault(tid, *transmission) is None,
            Err(e) => well_formed_fault(tid, *transmission) == Some(e),
        },
{
    match transmission {
        Transmission::Ratification => {
            if tid.kind == TransmissionKind::Ratification {
                Ok(())
            } else {
                Err(LedgerError::MismatchedKind)
            }
        },
        Transmission::Transaction(p) => {
            if tid.kind != TransmissionKind::Transaction {
                Err(LedgerError::MismatchedKind)
            } else if p.bytes.len() > MAX_TRANSACTION_SIZE {
                Err(LedgerError::TooLarge)
            } else if p.id != tid.id {
                Err(LedgerError::MismatchedId)
            } else if p.checksum != tid.checksum {
                Err(LedgerError::ChecksumMismatch)
            } else if p.is_fee {
                Err(LedgerError::FeeTransaction)
            } else {
                Ok(())
            }
        },
        Transmission::Solution(p) => {
            if tid.kind != TransmissionKind::Solution {
                Err(LedgerError::MismatchedKind)
            } else if p.id != tid.id {
                Err(LedgerError::MismatchedId)
            } else if p.checksum != tid.checksum {
                Err(LedgerError::ChecksumMismatch)
            } else {
                Ok(())
            }
        },
    }
}

/// The basic check of a solution: its content carries the expected identifier, and
/// `puzzle_accepts` (the puzzle's verdict for the current epoch) holds.
pub fn check_solution_basic(solution_id: u64, solution: &Payload, puzzle_accepts: bool) -> (r:
    Result<(), LedgerError>)
    ensures
        match r {
            Ok(()) => solution_fault(solution_id, *solution, puzzle_accepts) is None,
            Err(e) => solution_fault(solution_id, *solution, puzzle_accepts) == Some(e),
        },
{
    if solution.id != solution_id {
        Err(LedgerError::MismatchedId)
    } else if !puzzle_accepts {
        Err(LedgerError::InvalidSolution)
    } else {
        Ok(())
    }
}

/// The basic check of a transaction: not too large, carries the expected identifier,
/// not a fee transaction, and `vm_accepts` (the virtual machine's verdict) holds.
pub fn check_transaction_basic(transaction_id: u64, transaction: &Payload, vm_accepts: bool) -> (r:
    Result<(), LedgerError>)
    ensures
        match r {
            Ok(()) => transaction_fault(transaction_id, *transaction, vm_accepts) is None,
            Err(e) => transaction_fault(transaction_id, *transaction, vm_accepts) == Some(e),
        },
{
    if transaction.bytes.len() > MAX_TRANSACTION_SIZE {
        Err(LedgerError::TooLarge)
    } else if transaction.id != transaction_id {
        Err(LedgerError::MismatchedId)
    } else if transaction.is_fee {
        Err(LedgerError::FeeTransaction)
    } else if !vm_accepts {
        Err(LedgerError::InvalidTransaction)
    } else {
        Ok(())
    }
}

/// A block: its height, hash, the hash of its parent, its round, the solutions and
/// transactions it confirms, and the subdag it commits, if it is a quorum block.
#[derive(Debug)]
pub struct Block {
    pub height: u32,
    pub hash: u64,
    pub previous_hash: u64,
    pub round: u64,
    pub solution_ids: Vec<u64>,
    pub transaction_ids: Vec<u64>,
    pub subdag: Option<Subdag>,
}

/// The certificate identifiers of a block's subdag.
pub open spec fn block_certificate_ids(b: Block) -> Seq<u64> {
    match b.subdag {
        Some(s) => Seq::new(s.certificates@.len(), |i: int| s.certificates@[i].certificate_id),
        None => Seq::empty(),
    }
}

/// The canonical ledger as the consensus core sees it: block hashes and rounds by
/// height, the committees by starting round, the confirmed solution, transaction and
/// certificate identifiers, the cached latest leader, and the shutdown flag.
pub struct Ledger {
    block_hashes: Vec<u64>,
    block_rounds: Vec<u64>,
    committees: Vec<Committee>,
    solution_ids: Vec<u64>,
    transaction_ids: Vec<u64>,
    certificate_ids: Vec<u64>,
    latest_leader: Option<(u64, u64)>,
    shutdown: bool,
    committee_cache: LruCache<u64, usize>,
}

/// The ledger service of the consensus core.
pub type CoreLedgerService = Ledger;

impl Ledger {
    /// The block hashes, by height.
    pub closed spec fn hashes_view(&self) -> Seq<u64> {
        self.block_hashes@
    }

    /// The block rounds, by height.
    pub closed spec fn rounds_view(&self) -> Seq<u64> {
        self.block_rounds@
    }

    /// The committees, in the order given.
    pub closed spec fn committees_view(&self) -> Seq<Committee> {
        self.committees@
    }

    pub closed spec fn solutions_view(&self) -> Seq<u64> {
        self.solution_ids@
    }

    pub closed spec fn transactions_view(&self) -> Seq<u64> {
        self.transaction_ids@
    }

    pub closed spec fn certificates_view(&self) -> Seq<u64> {
        self.certificate_ids@
    }

    pub closed spec fn leader_view(&self) -> Option<(u64, u64)> {
        self.latest_leader
    }

    pub closed spec fn shutdown_view(&self) -> bool {
        self.shutdown
    }

    /// The round of the latest block.
    pub open spec fn latest_round_spec(&self) -> u64 {
        self.rounds_view().last()
    }

    /// Every cached round maps to the committee that is in force at it, and was
    /// either reached by the ledger or is where the current committee starts.
    pub closed spec fn cache_sound(&self) -> bool {
        forall|r: u64| #[trigger] cache_entries(self.committee_cache).contains_key(r) ==> {
            &&& cache_entries(self.committee_cache)[r] < self.committees@.len()
            &&& last_starting_by(self.committees@, r) == Some(cache_entries(self.committee_cache)[r] as int)
            &&& (r <= self.block_rounds@.last() || self.committees@.last().starting_round_view() == r)
        }
    }

    /// The ledger invariant: one round per block, at least the genesis block, heights
    /// fit in 32 bits, at least one committee, all well-formed, and a sound cache.
    pub open spec fn wf(&self) -> bool {
        &&& self.hashes_view().len() == self.rounds_view().len()
        &&& 0 < self.hashes_view().len() <= u32::MAX as int + 1
        &&& 0 < self.committees_view().len()
        &&& forall|i: int| 0 <= i < self.committees_view().len() ==> (#[trigger] self.committees_view()[i]).wf()
        &&& self.cache_sound()
    }

    /// Creates the ledger at its genesis block, with the given committees.
    pub fn new(genesis_hash: u64, committees: Vec<Committee>) -> (r: Result<Ledger, LedgerError>)
        ensures
            match r {
                Ok(l) => {
                    &&& l.wf()
                    &&& l.hashes_view() == seq![genesis_hash]
                    &&& l.rounds_view() == seq![0u64]
                    &&& l.committees_view() == committees@
                    &&& l.solutions_view().len() == 0
                    &&& l.transactions_view().len() == 0
                    &&& l.certificates_view().len() == 0
                    &&& l.leader_view() is None
                    &&& !l.shutdown_view()
                },
                Err(e) => e == LedgerError::InvalidCommittee && (committees@.len() == 0 || exists|i: int|
                    0 <= i < committees@.len() && !(#[trigger] committees@[i]).wf()),
            },
    {
        if committees.len() == 0 {
            return Err(LedgerError::InvalidCommittee);
        }
        let mut i: usize = 0;
        while i < committees.len()
            invariant
                i <= committees@.len(),
                forall|k: int| 0 <= k < i ==> (#[trigger] committees@[k]).wf(),
            decreases committees.len() - i,
        {
            if !committees[i].is_valid() {
                return Err(LedgerError::InvalidCommittee);
            }
            i = i + 1;
        }
        let mut block_hashes: Vec<u64> = Vec::new();
        block_hashes.push(genesis_hash);
        let mut block_rounds: Vec<u64> = Vec::new();
        block_rounds.push(0);
        let l = Ledger {
            block_hashes,
            block_rounds,
            committees,
            solution_ids: Vec::new(),
            transaction_ids: Vec::new(),
            certificate_ids: Vec::new(),
            latest_leader: None,
            shutdown: false,
            committee_cache: cache_new(COMMITTEE_CACHE_SIZE),
        };
        assert(l.block_hashes@ =~= seq![genesis_hash]);
        assert(l.block_rounds@ =~= seq![0u64]);
        Ok(l)
    }

    /// Returns the round of the latest block.
    pub fn latest_round(&self) -> (r: u64)
        requires
            self.wf(),
        ensures
            r == self.latest_round_spec(),
    {
        self.block_rounds[self.block_rounds.len() - 1]
    }

    /// Returns the height of the latest block.
    pub fn latest_block_height(&self) -> (r: u32)
        requires
            self.wf(),
        ensures
            r == self.hashes_view().len() - 1,
    {
        (self.block_hashes.len() - 1) as u32
    }

    /// Returns the block hashes, by height.
    pub fn block_hashes(&self) -> (r: &Vec<u64>)
        ensures
            r@ == self.hashes_view(),
    {
        &self.block_hashes
    }

    /// Returns `true` if the ledger has a block at the height.
    pub fn contains_block_height(&self, height: u32) -> (r: bool)
        ensures
            r == (height < self.hashes_view().len()),
    {
        (height as usize) < self.block_hashes.len()
    }

    /// Returns the hash of the block at the height.
    pub fn get_block_hash(&self, height: u32) -> (r: Result<u64, LedgerError>)
        ensures
            match r {
                Ok(h) => height < self.hashes_view().len() && h == self.hashes_view()[height as int],
                Err(e) => height >= self.hashes_view().len() && e == LedgerError::MissingBlock,
            },
    {
        if (height as usize) < self.block_hashes.len() {
            Ok(self.block_hashes[height as usize])
        } else {
            Err(LedgerError::MissingBlock)
        }
    }

    /// Returns the round of the block at the height.
    pub fn get_block_round(&self, height: u32) -> (r: Result<u64, LedgerError>)
        requires
            self.wf(),
        ensures
            match r {
                Ok(x) => height < self.rounds_view().len() && x == self.rounds_view()[height as int],
                Err(e) => height >= self.rounds_view().len() && e == LedgerError::MissingBlock,
            },
    {
        if (height as usize) < self.block_rounds.len() {
            Ok(self.block_rounds[height as usize])
        } else {
            Err(LedgerError::MissingBlock)
        }
    }

    /// Returns `true` if the transmission is confirmed in the ledger. A ratification
    /// never is.
    pub fn contains_transmission(&self, tid: TransmissionId) -> (r: bool)
        ensures
            r == match tid.kind {
                TransmissionKind::Ratification => false,
                TransmissionKind::Solution => seq_contains(self.solutions_view(), tid.id),
                TransmissionKind::Transaction => seq_contains(self.transactions_view(), tid.id),
            },
    {
        match tid.kind {
            TransmissionKind::Ratification => false,
            TransmissionKind::Solution => vec_contains_u64(&self.solution_ids, tid.id),
            TransmissionKind::Transaction => vec_contains_u64(&self.transaction_ids, tid.id),
        }
    }

    /// Returns `true` if the certificate is in the ledger's history.
    pub fn contains_certificate(&self, certificate_id: u64) -> (r: bool)
        ensures
            r == seq_contains(self.certificates_view(), certificate_id),
    {
        vec_contains_u64(&self.certificate_ids, certificate_id)
    }

    /// Returns the cached latest leader and its round.
    pub fn latest_leader(&self) -> (r: Option<(u64, u64)>)
        ensures
            r == self.leader_view(),
    {
        self.latest_leader
    }

    /// Caches the latest leader and its round.
    pub fn update_latest_leader(&mut self, round: u64, leader: u64)
        requires
            old(self).wf(),
        ensures
            final(self).wf(),
            final(self).leader_view() == Some((round, leader)),
            final(self).hashes_view() == old(self).hashes_view(),
            final(self).rounds_view() == old(self).rounds_view(),
            final(self).committees_view() == old(self).committees_view(),
            final(self).solutions_view() == old(self).solutions_view(),
            final(self).transactions_view() == old(self).transactions_view(),
            final(self).certificates_view() == old(self).certificates_view(),
            final(self).shutdown_view() == old(self).shutdown_view(),
    {
        self.latest_leader = Some((round, leader));
    }

    /// Raises the shutdown flag: no block is added afterwards.
    pub fn shut_down(&mut self)
        requires
            old(self).wf(),
        ensures
            final(self).wf(),
            final(self).shutdown_view(),
            final(self).hashes_view() == old(self).hashes_view(),
            final(self).rounds_view() == old(self).rounds_view(),
            final(self).committees_view() == old(self).committees_view(),
    {
        self.shutdown = true;
    }

    /// Returns the current committee: the last one.
    pub fn current_committee(&self) -> (r: &Committee)
        requires
            self.wf(),
        ensures
            *r == self.committees_view().last(),
            r.wf(),
    {
        &self.committees[self.committees.len() - 1]
    }

    /// Returns the committee at a position.
    pub fn committee_at(&self, position: usize) -> (r: &Committee)
        requires
            self.wf(),
            position < self.committees_view().len(),
        ensures
            *r == self.committees_view()[position as int],
            r.wf(),
    {
        &self.committees[position]
    }

    fn find_committee_position(&self, round: u64) -> (r: Option<usize>)
        requires
            self.wf(),
        ensures
            match r {
                Some(i) => i < self.committees@.len() && committee_position(self.committees@, self.block_rounds@.last(), round) == Some(i as int),
                None => committee_position(self.committees@, self.block_rounds@.last(), round) is None,
            },
    {
        let latest = self.block_rounds[self.block_rounds.len() - 1];
        let n = self.committees.len();
        if round > latest {
            if self.committees[n - 1].starting_round() == round {
                return Some(n - 1);
            }
            return None;
        }
        let mut i: usize = n;
        assert(self.committees@.subrange(0, n as int) =~= self.committees@);
        while i > 0
            invariant
                self.wf(),
                round <= self.block_rounds@.last(),
                i <= n,
                n == self.committees@.len(),
                last_starting_by(self.committees@, round) == last_starting_by(self.committees@.subrange(0, i as int), round),
            decreases i,
        {
            let ghost sub = self.committees@.subrange(0, i as int);
            assert(sub.drop_last() =~= self.committees@.subrange(0, i - 1));
            if self.committees[i - 1].starting_round() <= round {
                return Some(i - 1);
            }
            i = i - 1;
        }
        None
    }

    /// Returns the position of the committee for `round`, looking in the committee
    /// cache first and filling it on a miss.
    pub fn get_committee_for_round(&mut self, round: u64) -> (r: Result<usize, LedgerError>)
        requires
            old(self).wf(),
        ensures
            final(self).wf(),
            final(self).hashes_view() == old(self).hashes_view(),
            final(self).rounds_view() == old(self).rounds_view(),
            final(self).committees_view() == old(self).committees_view(),
            final(self).solutions_view() == old(self).solutions_view(),
            final(self).transactions_view() == old(self).transactions_view(),
            final(self).certificates_view() == old(self).certificates_view(),
            final(self).leader_view() == old(self).leader_view(),
            final(self).shutdown_view() == old(self).shutdown_view(),
            match r {
                Ok(i) => committee_position(old(self).committees_view(), old(self).latest_round_spec(), round) == Some(i as int)
                    && i < old(self).committees_view().len(),
                Err(e) => committee_position(old(self).committees_view(), old(self).latest_round_spec(), round) is None
                    && e == LedgerError::MissingCommittee,
            },
    {
        let cached = cache_get(&mut self.committee_cache, round);
        match cached {
            Some(i) => {
                proof {
                    assert(cache_entries(self.committee_cache).contains_key(round));
                    lemma_last_starting_in_range(self.committees@, round);
                }
                Ok(i)
            },
            None => {
                match self.find_committee_position(round) {
                    Some(i) => {
                        let ghost before = self.committee_cache;
                        cache_push(&mut self.committee_cache, round, i);
                        proof {
                            lemma_last_starting_in_range(self.committees@, round);
                            assert forall|x: u64| #[trigger] cache_entries(self.committee_cache).contains_key(x) implies {
                                &&& cache_entries(self.committee_cache)[x] < self.committees@.len()
                                &&& last_starting_by(self.committees@, x) == Some(cache_entries(self.committee_cache)[x] as int)
                                &&& (x <= self.block_rounds@.last() || self.committees@.last().starting_round_view() == x)
                            } by {
                                if x != round {
                                    assert(cache_entries(before).contains_key(x));
                                }
                            }
                        }
                        Ok(i)
                    },
                    None => Err(LedgerError::MissingCommittee),
                }
            },
        }
    }

    /// Returns the position of the committee that authorizes `round`: the committee for
    /// its lookback round.
    pub fn get_committee_lookback_for_round(&mut self, round: u64) -> (r: Result<usize, LedgerError>)
        requires
            old(self).wf(),
        ensures
            final(self).wf(),
            final(self).hashes_view() == old(self).hashes_view(),
            final(self).rounds_view() == old(self).rounds_view(),
            final(self).committees_view() == old(self).committees_view(),
            final(self).solutions_view() == old(self).solutions_view(),
            final(self).transactions_view() == old(self).transactions_view(),
            final(self).certificates_view() == old(self).certificates_view(),
            final(self).leader_view() == old(self).leader_view(),
            final(self).shutdown_view() == old(self).shutdown_view(),
            match r {
                Ok(i) => committee_position(old(self).committees_view(), old(self).latest_round_spec(), lookback_round(round)) == Some(i as int)
                    && i < old(self).committees_view().len(),
                Err(e) => committee_position(old(self).committees_view(), old(self).latest_round_spec(), lookback_round(round)) is None
                    && e == LedgerError::MissingCommittee,
            },
    {
        let lookback = committee_lookback_round(round);
        self.get_committee_for_round(lookback)
    }
}

/// Why a subdag joins more than one commit, scanning the even rounds from `r` down to
/// `lo`: at each, the leader elected by the round's committee lookback; if the subdag
/// holds that leader's certificate, the subdag's own leader must not reach it.
pub open spec fn atomicity_fault_from(
    cs: Seq<Committee>,
    latest: u64,
    certs: Seq<BatchCertificate>,
    leader: int,
    r: int,
    lo: int,
) -> Option<LedgerError>
    decreases r - lo + 2,
{
    if r < lo || r < 0 || r > u64::MAX {
        None
    } else {
        match committee_position(cs, latest, lookback_round(r as u64)) {
            None => Some(LedgerError::MissingCommittee),
            Some(pos) => match first_from(certs, r as u64, leader_of(cs[pos].members_view(), r as u64)) {
                None => atomicity_fault_from(cs, latest, certs, leader, r - 2, lo),
                Some(p) => if !rounds_present(certs, certs[p as int].header.round, certs[leader].header.round) {
                    Some(LedgerError::MissingRound)
                } else if linked(certs, p as int, leader) {
                    Some(LedgerError::SplitSubdag)
                } else {
                    atomicity_fault_from(cs, latest, certs, leader, r - 2, lo)
                },
            },
        }
    }
}

/// Why a block's subdag fails the atomicity check, if it does: the even rounds from
/// two below the anchor round down to two above the ledger's latest round are scanned.
pub open spec fn subdag_fault(cs: Seq<Committee>, latest: u64, subdag: Option<Subdag>) -> Option<LedgerError> {
    match subdag {
        None => None,
        Some(s) => if s.leader >= s.certificates@.len() {
            Some(LedgerError::MalformedSubdag)
        } else {
            let lo = if latest <= u64::MAX - 2 { latest + 2 } else { u64::MAX as int };
            let anchor = s.certificates@[s.leader as int].header.round;
            let hi = if anchor >= 2 { anchor - 2 } else { 0 };
            atomicity_fault_from(cs, latest, s.certificates@, s.leader as int, hi, lo)
        },
    }
}

/// Why `block` cannot be the next block, if it cannot, given whether the virtual
/// machine accepts its speculation and verification: a known hash, a known height, a
/// known solution, the machine's verdict, the committee lookbacks of its round and
/// of the round before, and the atomicity of its subdag, in that order.
pub open spec fn next_block_fault(
    hashes: Seq<u64>,
    solutions: Seq<u64>,
    cs: Seq<Committee>,
    latest: u64,
    block: Block,
    vm_accepts: bool,
) -> Option<LedgerError> {
    if seq_contains(hashes, block.hash) {
        Some(LedgerError::DuplicateBlockHash)
    } else if block.height < hashes.len() {
        Some(LedgerError::DuplicateBlockHeight)
    } else if exists|i: int| 0 <= i < block.solution_ids@.len() && seq_contains(solutions, #[trigger] block.solution_ids@[i]) {
        Some(LedgerError::DuplicateSolution)
    } else if !vm_accepts {
        Some(LedgerError::VmRejected)
    } else if committee_position(cs, latest, lookback_round(block.round)) is None {
        Some(LedgerError::MissingCommittee)
    } else if committee_position(cs, latest, lookback_round(if block.round >= 1 { (block.round - 1) as u64 } else { 0 })) is None {
        Some(LedgerError::MissingCommittee)
    } else {
        subdag_fault(cs, latest, block.subdag)
    }
}

fn append_ids(dst: &mut Vec<u64>, src: &Vec<u64>)
    ensures
        final(dst)@ == old(dst)@ + src@,
{
    let ghost start = dst@;
    let mut i: usize = 0;
    while i < src.len()
        invariant
            i <= src@.len(),
            dst@ == start + src@.subrange(0, i as int),
        decreases src.len() - i,
    {
        dst.push(src[i]);
        i = i + 1;
        assert(dst@ =~= start + src@.subrange(0, i as int));
    }
    assert(src@.subrange(0, src@.len() as int) =~= src@);
}

fn append_certificate_ids(dst: &mut Vec<u64>, s: &Subdag)
    ensures
        final(dst)@ == old(dst)@ + Seq::new(s.certificates@.len(), |j: int| s.certificates@[j].certificate_id),
{
    let ghost start = dst@;
    let mut i: usize = 0;
    while i < s.certificates.len()
        invariant
            i <= s.certificates@.len(),
            dst@ == start + Seq::new(i as nat, |j: int| s.certificates@[j].certificate_id),
        decreases s.certificates.len() - i,
    {
        dst.push(s.certificates[i].certificate_id);
        i = i + 1;
        assert(dst@ =~= start + Seq::new(i as nat, |j: int| s.certificates@[j].certificate_id));
    }
}

impl Ledger {
    /// Checks that the block's subdag commits exactly one leader: for each even round
    /// between the ledger's latest round and the anchor round, the leader's certificate
    /// of that round, if the subdag holds it, is not reached from the subdag's leader.
    pub fn check_block_subdag_atomicity(&mut self, block: &Block) -> (r: Result<(), LedgerError>)
        requires
            old(self).wf(),
        ensures
            final(self).wf(),
            final(self).hashes_view() == old(self).hashes_view(),
            final(self).rounds_view() == old(self).rounds_view(),
            final(self).committees_view() == old(self).committees_view(),
            final(self).solutions_view() == old(self).solutions_view(),
            final(self).transactions_view() == old(self).transactions_view(),
            final(self).certificates_view() == old(self).certificates_view(),
            final(self).leader_view() == old(self).leader_view(),
            final(self).shutdown_view() == old(self).shutdown_view(),
            match r {
                Ok(()) => subdag_fault(old(self).committees_view(), old(self).latest_round_spec(), block.subdag) is None,
                Err(e) => subdag_fault(old(self).committees_view(), old(self).latest_round_spec(), block.subdag) == Some(e),
            },
    {
        match &block.subdag {
            None => Ok(()),
            Some(s) => {
                if s.leader >= s.certificates.len() {
                    return Err(LedgerError::MalformedSubdag);
                }
                let latest = self.latest_round();
                let lo = latest.saturating_add(2);
                let hi = s.anchor_round().saturating_sub(2);
                let ghost cs = self.committees@;
                if hi < lo {
                    return Ok(());
                }
                let steps: u64 = (hi - lo) / 2 + 1;
                let mut k: u64 = 0;
                while k < steps
                    invariant
                        self.wf(),
                        self.committees@ == cs,
                        cs == old(self).committees_view(),
                        latest == old(self).latest_round_spec(),
                        self.hashes_view() == old(self).hashes_view(),
                        self.rounds_view() == old(self).rounds_view(),
                        self.solutions_view() == old(self).solutions_view(),
                        self.transactions_view() == old(self).transactions_view(),
                        self.certificates_view() == old(self).certificates_view(),
                        self.leader_view() == old(self).leader_view(),
                        self.shutdown_view() == old(self).shutdown_view(),
                        s.leader < s.certificates@.len(),
                        lo <= hi,
                        lo >= 2,
                        steps == (hi - lo) / 2 + 1,
                        k <= steps,
                        subdag_fault(cs, latest, block.subdag) == atomicity_fault_from(cs, latest, s.certificates@, s.leader as int, hi - 2 * k, lo as int),
                    decreases steps - k,
                {
                    let round = hi - 2 * k;
                    let pos = match self.get_committee_lookback_for_round(round) {
                        Ok(pos) => pos,
                        Err(e) => {
                            return Err(e);
                        },
                    };
                    let leader = self.committee_at(pos).get_leader(round);
                    match find_certificate_from(&s.certificates, round, leader) {
                        None => {},
                        Some(p) => {
                            match is_linked(&s.certificates, p, s.leader) {
                                Err(()) => {
                                    return Err(LedgerError::MissingRound);
                                },
                                Ok(true) => {
                                    return Err(LedgerError::SplitSubdag);
                                },
                                Ok(false) => {},
                            }
                        },
                    }
                    k = k + 1;
                }
                assert(hi - 2 * k < lo);
                Ok(())
            },
        }
    }

    /// Checks that `block` can be the next block, given whether the virtual machine
    /// accepts its speculation and verification.
    pub fn check_next_block(&mut self, block: &Block, vm_accepts: bool) -> (r: Result<(), LedgerError>)
        requires
            old(self).wf(),
        ensures
            final(self).wf(),
            final(self).hashes_view() == old(self).hashes_view(),
            final(self).rounds_view() == old(self).rounds_view(),
            final(self).committees_view() == old(self).committees_view(),
            final(self).solutions_view() == old(self).solutions_view(),
            final(self).transactions_view() == old(self).transactions_view(),
            final(self).certificates_view() == old(self).certificates_view(),
            final(self).leader_view() == old(self).leader_view(),
            final(self).shutdown_view() == old(self).shutdown_view(),
            match r {
                Ok(()) => next_block_fault(old(self).hashes_view(), old(self).solutions_view(), old(self).committees_view(),
                    old(self).latest_round_spec(), *block, vm_accepts) is None,
                Err(e) => next_block_fault(old(self).hashes_view(), old(self).solutions_view(), old(self).committees_view(),
                    old(self).latest_round_spec(), *block, vm_accepts) == Some(e),
            },
    {
        if vec_contains_u64(&self.block_hashes, block.hash) {
            return Err(LedgerError::DuplicateBlockHash);
        }
        if (block.height as usize) < self.block_hashes.len() {
            return Err(LedgerError::DuplicateBlockHeight);
        }
        let mut i: usize = 0;
        while i < block.solution_ids.len()
            invariant
                *self == *old(self),
                old(self).wf(),
                !seq_contains(old(self).hashes_view(), block.hash),
                block.height >= old(self).hashes_view().len(),
                i <= block.solution_ids@.len(),
                forall|j: int| 0 <= j < i ==> !seq_contains(self.solution_ids@, #[trigger] block.solution_ids@[j]),
            decreases block.solution_ids.len() - i,
        {
            if vec_contains_u64(&self.solution_ids, block.solution_ids[i]) {
                return Err(LedgerError::DuplicateSolution);
            }
            i = i + 1;
        }
        if !vm_accepts {
            return Err(LedgerError::VmRejected);
        }
        match self.get_committee_lookback_for_round(block.round) {
            Ok(_) => {},
            Err(e) => {
                return Err(e);
            },
        }
        match self.get_committee_lookback_for_round(block.round.saturating_sub(1)) {
            Ok(_) => {},
            Err(e) => {
                return Err(e);
            },
        }
        self.check_block_subdag_atomicity(block)
    }

    /// Appends `block` as the next block: it must extend the latest block, at a later
    /// round, and the node must not be shutting down. Its solutions, transactions and
    /// subdag certificates become confirmed.
    pub fn advance_to_next_block(&mut self, block: &Block) -> (r: Result<(), LedgerError>)
        requires
            old(self).wf(),
        ensures
            final(self).wf(),
            match r {
                Ok(()) => {
                    &&& !old(self).shutdown_view()
                    &&& block.height == old(self).hashes_view().len()
                    &&& block.previous_hash == old(self).hashes_view().last()
                    &&& block.round > old(self).latest_round_spec()
                    &&& final(self).hashes_view() == old(self).hashes_view().push(block.hash)
                    &&& final(self).rounds_view() == old(self).rounds_view().push(block.round)
                    &&& final(self).solutions_view() == old(self).solutions_view() + block.solution_ids@
                    &&& final(self).transactions_view() == old(self).transactions_view() + block.transaction_ids@
                    &&& final(self).certificates_view() == old(self).certificates_view() + block_certificate_ids(*block)
                    &&& final(self).committees_view() == old(self).committees_view()
                    &&& final(self).leader_view() == old(self).leader_view()
                    &&& final(self).shutdown_view() == old(self).shutdown_view()
                },
                Err(e) => *final(self) == *old(self) && if old(self).shutdown_view() {
                    e == LedgerError::Shutdown
                } else {
                    e == LedgerError::NotNextBlock && !(block.height == old(self).hashes_view().len()
                        && block.previous_hash == old(self).hashes_view().last()
                        && block.round > old(self).latest_round_spec())
                },
            },
    {
        if self.shutdown {
            return Err(LedgerError::Shutdown);
        }
        let n = self.block_hashes.len();
        if block.height as usize != n || block.previous_hash != self.block_hashes[n - 1]
            || block.round <= self.block_rounds[n - 1] {
            return Err(LedgerError::NotNextBlock);
        }
        let ghost old_latest = self.block_rounds@.last();
        self.block_hashes.push(block.hash);
        self.block_rounds.push(block.round);
        append_ids(&mut self.solution_ids, &block.solution_ids);
        append_ids(&mut self.transaction_ids, &block.transaction_ids);
        match &block.subdag {
            Some(s) => append_certificate_ids(&mut self.certificate_ids, s),
            None => {},
        }
        assert(self.certificate_ids@ =~= old(self).certificate_ids@ + block_certificate_ids(*block));
        proof {
            assert(self.block_rounds@.last() == block.round);
            assert forall|x: u64| #[trigger] cache_entries(self.committee_cache).contains_key(x) implies {
                &&& cache_entries(self.committee_cache)[x] < self.committees@.len()
                &&& last_starting_by(self.committees@, x) == Some(cache_entries(self.committee_cache)[x] as int)
                &&& (x <= self.block_rounds@.last() || self.committees@.last().starting_round_view() == x)
            } by {
                assert(x <= old_latest || self.committees@.last().starting_round_view() == x);
            }
        }
        Ok(())
    }
}

proof fn lemma_scan_finds_split(
    cs: Seq<Committee>,
    latest: u64,
    certs: Seq<BatchCertificate>,
    leader: int,
    r0: int,
    lo: int,
    r: int,
)
    requires
        0 <= lo <= r <= r0 <= u64::MAX,
        (r0 - r) % 2 == 0,
        committee_position(cs, latest, lookback_round(r as u64)) is Some,
        first_from(
            certs,
            r as u64,
            leader_of(cs[committee_position(cs, latest, lookback_round(r as u64)).unwrap()].members_view(), r as u64),
        ) is Some,
        linked(
            certs,
            first_from(
                certs,
                r as u64,
                leader_of(cs[committee_position(cs, latest, lookback_round(r as u64)).unwrap()].members_view(), r as u64),
            ).unwrap() as int,
            leader,
        ),
    ensures
        atomicity_fault_from(cs, latest, certs, leader, r0, lo) is Some,
    decreases r0 - r,
{
    if r0 > r {
        lemma_scan_finds_split(cs, latest, certs, leader, r0 - 2, lo, r);
    }
}

/// A block whose subdag is splittable is rejected: if, at an even round `r` two or
/// more above the ledger's latest round and two or more below the (even) anchor round,
/// the subdag holds the certificate of that round's elected leader and its own leader
/// reaches it, then the block is not a valid next block.
pub proof fn lemma_split_subdag_rejected(
    hashes: Seq<u64>,
    solutions: Seq<u64>,
    cs: Seq<Committee>,
    latest: u64,
    block: Block,
    vm_accepts: bool,
    r: u64,
)
    requires
        block.subdag is Some,
        block.subdag.unwrap().leader < block.subdag.unwrap().certificates@.len(),
        block.subdag.unwrap().anchor_round_spec() % 2 == 0,
        r % 2 == 0,
        latest + 2 <= r,
        r + 2 <= block.subdag.unwrap().anchor_round_spec(),
        committee_position(cs, latest, lookback_round(r)) is Some,
        first_from(
            block.subdag.unwrap().certificates@,
            r,
            leader_of(cs[committee_position(cs, latest, lookback_round(r)).unwrap()].members_view(), r),
        ) is Some,
        linked(
            block.subdag.unwrap().certificates@,
            first_from(
                block.subdag.unwrap().certificates@,
                r,
                leader_of(cs[committee_position(cs, latest, lookback_round(r)).unwrap()].members_view(), r),
            ).unwrap() as int,
            block.subdag.unwrap().leader as int,
        ),
    ensures
        next_block_fault(hashes, solutions, cs, latest, block, vm_accepts) is Some,
{
    let s = block.subdag.unwrap();
    let anchor = s.certificates@[s.leader as int].header.round;
    let hi = anchor - 2;
    let lo = latest + 2;
    lemma_scan_finds_split(cs, latest, s.certificates@, s.leader as int, hi, lo, r as int);
}

} // verus!
