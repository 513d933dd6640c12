use vstd::prelude::*;

use indexmap::IndexMap;

use crate::assoc::{assoc, has_key, keys_unique, lemma_assoc_at};
use crate::ledger::{check_solution_basic, check_transaction_basic, solution_fault, transaction_fault, Ledger, LedgerError};
use crate::storage::Storage;
use crate::types::{
    key_of, same_transmission, seq_contains, Payload, Transmission, TransmissionId, TransmissionKind,
    MAX_WORKERS,
};

verus! {

/// A transmission identifier as a tuple of integers: kind tag, content identifier,
/// checksum. The ready queue is keyed by it.
pub type ReadyKey = (u8, u64, u128);

/// `indexmap::IndexMap`, held opaquely; its entries are named by `ready_entries`.
#[verifier::external_type_specification]
#[verifier::external_body]
#[verifier::reject_recursive_types(K)]
#[verifier::reject_recursive_types(V)]
#[verifier::reject_recursive_types(S)]
pub struct ExIndexMap<K, V, S>(IndexMap<K, V, S>);

/// What a ready queue holds: its entries in insertion order.
pub uninterp spec fn ready_entries(m: IndexMap<ReadyKey, Transmission>) -> Seq<(ReadyKey, Transmission)>;

/// Relies on `indexmap::IndexMap::new`: a new map is empty.
#[verifier::external_body]
fn ready_new() -> (r: IndexMap<ReadyKey, Transmission>)
    ensures
        ready_entries(r).len() == 0,
{
    IndexMap::new()
}

/// Relies on `indexmap::IndexMap::len`: the number of entries.
#[verifier::external_body]
fn ready_len(m: &IndexMap<ReadyKey, Transmission>) -> (r: usize)
    ensures
        r == ready_entries(*m).len(),
{
    m.len()
}

/// Relies on `indexmap::IndexMap::contains_key`: whether an entry has the key.
#[verifier::external_body]
fn ready_contains(m: &IndexMap<ReadyKey, Transmission>, k: ReadyKey) -> (r: bool)
    ensures
        r == has_key(ready_entries(*m), k),
{
    m.contains_key(&k)
}

/// Relies on `indexmap::IndexMap::get`: the value of the entry with the key, if any.
#[verifier::external_body]
fn ready_get(m: &IndexMap<ReadyKey, Transmission>, k: ReadyKey) -> (r: Option<&Transmission>)
    ensures
        match r {
            Some(v) => exists|i: int| 0 <= i < ready_entries(*m).len() && #[trigger] ready_entries(*m)[i] == (k, *v),
            None => !has_key(ready_entries(*m), k),
        },
{
    m.get(&k)
}

/// Relies on `indexmap::IndexMap::get_index`: the key of the entry at a position.
#[verifier::external_body]
fn ready_key_at(m: &IndexMap<ReadyKey, Transmission>, i: usize) -> (r: ReadyKey)
    requires
        i < ready_entries(*m).len(),
    ensures
        r == ready_entries(*m)[i as int].0,
{
    *m.get_index(i).unwrap().0
}

/// Relies on `indexmap::IndexMap::insert`: a new key is appended last; an existing
/// key keeps its place, takes the new value, and its old value is returned. Keys
/// stay unique.
#[verifier::external_body]
fn ready_insert(m: &mut IndexMap<ReadyKey, Transmission>, k: ReadyKey, v: Transmission) -> (r: Option<Transmission>)
    ensures
        keys_unique(ready_entries(*old(m))) ==> keys_unique(ready_entries(*final(m))),
        !has_key(ready_entries(*old(m)), k) ==> r is None && ready_entries(*final(m)) == ready_entries(*old(m)).push((k, v)),
        has_key(ready_entries(*old(m)), k) ==> exists|i: int| 0 <= i < ready_entries(*old(m)).len() && #[trigger] ready_entries(*old(m))[i].0 == k
            && ready_entries(*final(m)) == ready_entries(*old(m)).update(i, (k, v)) && r == Some(ready_entries(*old(m))[i].1),
{
    m.insert(k, v)
}

/// Relies on `indexmap::IndexMap::drain`: the first `n` entries are removed and
/// returned in order; the rest keep their order.
#[verifier::external_body]
fn ready_drain_front(m: &mut IndexMap<ReadyKey, Transmission>, n: usize) -> (r: Vec<(ReadyKey, Transmission)>)
    requires
        n <= ready_entries(*old(m)).len(),
    ensures
        r@ == ready_entries(*old(m)).take(n as int),
        ready_entries(*final(m)) == ready_entries(*old(m)).skip(n as int),
{
    m.drain(..n).collect()
}

/// The transmission identifier that a ready key stands for.
pub open spec fn id_of_key(k: ReadyKey) -> TransmissionId {
    TransmissionId {
        kind: if k.0 == 0 {
            TransmissionKind::Ratification
        } else if k.0 == 1 {
            TransmissionKind::Solution
        } else {
            TransmissionKind::Transaction
        },
        id: k.1,
        checksum: k.2,
    }
}

/// Returns the transmission identifier that a ready key stands for.
pub fn key_to_id(k: ReadyKey) -> (r: TransmissionId)
    ensures
        r == id_of_key(k),
{
    let kind = if k.0 == 0 {
        TransmissionKind::Ratification
    } else if k.0 == 1 {
        TransmissionKind::Solution
    } else {
        TransmissionKind::Transaction
    };
    TransmissionId { kind, id: k.1, checksum: k.2 }
}

/// Why a worker refused a transmission or could not be formed.
#[derive(Clone, Copy, Debug, PartialEq, Eq, Structural)]
pub enum WorkerError {
    /// The worker identifier is not below `MAX_WORKERS`.
    InvalidWorkerId,
    /// The transmission is already in the ready queue, the proposed batch, storage,
    /// or the ledger.
    DuplicateTransmission,
    /// The ledger's basic check refused the transmission.
    Rejected(LedgerError),
    /// The transmission is not held locally.
    NotFound,
}

/// The transmission is held somewhere: in the ready entries, among the proposed
/// batch's transmissions, in storage, or confirmed in the ledger.
pub open spec fn held_anywhere(
    ready: Seq<(ReadyKey, Transmission)>,
    proposed: Seq<(TransmissionId, Transmission)>,
    storage: Storage,
    ledger: Ledger,
    tid: TransmissionId,
) -> bool {
    has_key(ready, key_of(tid)) || has_key(proposed, tid) || has_key(storage.txs_view(), tid) || match tid.kind {
        TransmissionKind::Ratification => false,
        TransmissionKind::Solution => seq_contains(ledger.solutions_view(), tid.id),
        TransmissionKind::Transaction => seq_contains(ledger.transactions_view(), tid.id),
    }
}

/// A worker shard: a ready queue of unconfirmed transmissions in arrival order, and
/// the identifiers being fetched from peers.
pub struct Worker {
    id: u8,
    ready: IndexMap<ReadyKey, Transmission>,
    pending: Vec<TransmissionId>,
}

impl Worker {
    pub closed spec fn id_view(&self) -> u8 {
        self.id
    }

    /// The ready queue's entries, in arrival order.
    pub closed spec fn ready_view(&self) -> Seq<(ReadyKey, Transmission)> {
        ready_entries(self.ready)
    }

    /// The identifiers being fetched.
    pub closed spec fn pending_view(&self) -> Seq<TransmissionId> {
        self.pending@
    }

    /// Each transmission is in the ready queue at most once.
    pub open spec fn wf(&self) -> bool {
        keys_unique(self.ready_view())
    }

    /// The transmission is held by this worker or elsewhere in the node.
    pub open spec fn holds(
        &self,
        proposed: Seq<(TransmissionId, Transmission)>,
        storage: Storage,
        ledger: Ledger,
        tid: TransmissionId,
    ) -> bool {
        held_anywhere(self.ready_view(), proposed, storage, ledger, tid)
    }

    /// Creates a worker with an empty ready queue.
    pub fn new(id: u8) -> (r: Result<Worker, WorkerError>)
        ensures
            match r {
                Ok(w) => id < MAX_WORKERS && w.wf() && w.id_view() == id && w.ready_view().len() == 0
                    && w.pending_view().len() == 0,
                Err(e) => id >= MAX_WORKERS && e == WorkerError::InvalidWorkerId,
            },
    {
        if id >= MAX_WORKERS {
            return Err(WorkerError::InvalidWorkerId);
        }
        let w = Worker { id, ready: ready_new(), pending: Vec::new() };
        assert(keys_unique(ready_entries(w.ready)));
        Ok(w)
    }

    /// Returns the worker identifier.
    pub fn id(&self) -> (r: u8)
        ensures
            r == self.id_view(),
    {
        self.id
    }

    /// Returns the identifiers being fetched.
    pub fn pending(&self) -> (r: &Vec<TransmissionId>)
        ensures
            r@ == self.pending_view(),
    {
        &self.pending
    }

    /// Records that a transmission is being fetched.
    pub fn add_pending(&mut self, tid: TransmissionId)
        ensures
            final(self).pending_view() == old(self).pending_view().push(tid),
            final(self).ready_view() == old(self).ready_view(),
            final(self).id_view() == old(self).id_view(),
    {
        self.pending.push(tid);
    }

    /// Removes every occurrence of `tid` from the pending identifiers.
    fn remove_pending(&mut self, tid: TransmissionId)
        ensures
            final(self).pending_view() == old(self).pending_view().filter(|x: TransmissionId| x != tid),
            final(self).ready == old(self).ready,
            final(self).id == old(self).id,
    {
        let mut kept: Vec<TransmissionId> = Vec::new();
        let mut i: usize = 0;
        let ghost pred = |x: TransmissionId| x != tid;
        while i < self.pending.len()
            invariant
                i <= self.pending@.len(),
                pred == (|x: TransmissionId| x != tid),
                kept@ == self.pending@.subrange(0, i as int).filter(pred),
            decreases self.pending.len() - i,
        {
            let x = self.pending[i];
            proof {
                assert(self.pending@.subrange(0, i + 1) =~= self.pending@.subrange(0, i as int).push(x));
                self.pending@.subrange(0, i as int).lemma_filter_push(x, pred);
            }
            if x != tid {
                kept.push(x);
            }
            i = i + 1;
        }
        assert(self.pending@.subrange(0, self.pending@.len() as int) =~= self.pending@);
        self.pending = kept;
    }

    /// Returns the number of transmissions in the ready queue.
    pub fn num_transmissions(&self) -> (r: usize)
        ensures
            r == self.ready_view().len(),
    {
        ready_len(&self.ready)
    }

    /// Returns the number of ready transmissions of a kind tag (0 ratification,
    /// 1 solution, 2 transaction).
    pub(crate) fn num_with_tag(&self, tag: u8) -> (r: usize)
        ensures
            r == count_tag(self.ready_view(), tag),
    {
        let n = ready_len(&self.ready);
        let mut count: usize = 0;
        let mut i: usize = 0;
        while i < n
            invariant
                n == ready_entries(self.ready).len(),
                i <= n,
                count == count_tag(ready_entries(self.ready).take(i as int), tag),
                count <= i,
            decreases n - i,
        {
            let k = ready_key_at(&self.ready, i);
            proof {
                assert(ready_entries(self.ready).take(i + 1).drop_last() =~= ready_entries(self.ready).take(i as int));
            }
            if k.0 == tag {
                count = count + 1;
            }
            i = i + 1;
        }
        assert(ready_entries(self.ready).take(n as int) =~= ready_entries(self.ready));
        count
    }

    /// Returns the number of ratifications in the ready queue.
    pub fn num_ratifications(&self) -> (r: usize)
        ensures
            r == count_tag(self.ready_view(), 0),
    {
        self.num_with_tag(0)
    }

    /// Returns the number of solutions in the ready queue.
    pub fn num_solutions(&self) -> (r: usize)
        ensures
            r == count_tag(self.ready_view(), 1),
    {
        self.num_with_tag(1)
    }

    /// Returns the number of transactions in the ready queue.
    pub fn num_transactions(&self) -> (r: usize)
        ensures
            r == count_tag(self.ready_view(), 2),
    {
        self.num_with_tag(2)
    }

    /// Returns the identifiers in the ready queue, in order.
    pub fn transmission_ids(&self) -> (r: Vec<TransmissionId>)
        ensures
            r@ == Seq::new(self.ready_view().len(), |i: int| id_of_key(self.ready_view()[i].0)),
    {
        let n = ready_len(&self.ready);
        let mut out: Vec<TransmissionId> = Vec::new();
        let mut i: usize = 0;
        while i < n
            invariant
                n == ready_entries(self.ready).len(),
                i <= n,
                out@ == Seq::new(i as nat, |j: int| id_of_key(ready_entries(self.ready)[j].0)),
            decreases n - i,
        {
            let k = ready_key_at(&self.ready, i);
            out.push(key_to_id(k));
            i = i + 1;
            assert(out@ =~= Seq::new(i as nat, |j: int| id_of_key(ready_entries(self.ready)[j].0)));
        }
        out
    }

    /// Returns `true` if the transmission is in the ready queue.
    pub fn ready_contains(&self, tid: TransmissionId) -> (r: bool)
        ensures
            r == has_key(self.ready_view(), key_of(tid)),
    {
        ready_contains(&self.ready, tid.key())
    }

    /// Returns `true` if the transmission is in the ready queue, among the proposed
    /// batch's transmissions, in storage, or confirmed in the ledger.
    pub fn contains_transmission(
        &self,
        tid: TransmissionId,
        proposed: &Vec<(TransmissionId, Transmission)>,
        storage: &Storage,
        ledger: &Ledger,
    ) -> (r: bool)
        ensures
            r == self.holds(proposed@, *storage, *ledger, tid),
    {
        ready_contains(&self.ready, tid.key()) || proposed_index(proposed, tid).is_some()
            || storage.contains_transmission(tid) || ledger.contains_transmission(tid)
    }

    /// Returns the transmission if it is in the ready queue, in storage, or among the
    /// proposed batch's transmissions (looked up in that order). The ledger is not
    /// consulted.
    pub fn get_transmission<'a>(
        &'a self,
        tid: TransmissionId,
        proposed: &'a Vec<(TransmissionId, Transmission)>,
        storage: &'a Storage,
    ) -> (r: Option<&'a Transmission>)
        requires
            self.wf(),
            storage.wf(),
            keys_unique(proposed@),
        ensures
            r is None <==> !has_key(self.ready_view(), key_of(tid)) && !has_key(storage.txs_view(), tid)
                && !has_key(proposed@, tid),
            match r {
                Some(t) => local_copy(self.ready_view(), storage.txs_view(), proposed@, tid) == Some(*t),
                None => local_copy(self.ready_view(), storage.txs_view(), proposed@, tid) is None,
            },
    {
        match ready_get(&self.ready, tid.key()) {
            Some(t) => {
                proof {
                    let i = choose|i: int| 0 <= i < ready_entries(self.ready).len() && #[trigger] ready_entries(self.ready)[i] == (key_of(tid), *t);
                    assert(ready_entries(self.ready)[i].0 == key_of(tid));
                    lemma_assoc_at(ready_entries(self.ready), i);
                }
                return Some(t);
            },
            None => {},
        }
        match storage.get_transmission(tid) {
            Some(t) => {
                proof {
                    assert(!has_key(ready_entries(self.ready), key_of(tid)));
                }
                return Some(t);
            },
            None => {},
        }
        match proposed_index(proposed, tid) {
            Some(i) => {
                proof {
                    lemma_assoc_at(proposed@, i as int);
                }
                Some(&proposed[i].1)
            },
            None => None,
        }
    }

    /// Returns a copy of the transmission if it is held locally (see
    /// `get_transmission`), and `NotFound` otherwise: fetching from peers is left to
    /// the caller.
    pub fn get_or_fetch_transmission(
        &self,
        tid: TransmissionId,
        proposed: &Vec<(TransmissionId, Transmission)>,
        storage: &Storage,
    ) -> (r: Result<(TransmissionId, Transmission), WorkerError>)
        requires
            self.wf(),
            storage.wf(),
            keys_unique(proposed@),
        ensures
            r is Err <==> local_copy(self.ready_view(), storage.txs_view(), proposed@, tid) is None,
            r matches Err(e) ==> e == WorkerError::NotFound,
            r matches Ok(p) ==> p.0 == tid && local_copy(self.ready_view(), storage.txs_view(), proposed@, tid) is Some
                && same_transmission(p.1, local_copy(self.ready_view(), storage.txs_view(), proposed@, tid).unwrap()),
    {
        match self.get_transmission(tid, proposed, storage) {
            Some(t) => Ok((tid, t.duplicate())),
            None => Err(WorkerError::NotFound),
        }
    }

    /// Removes up to `n` transmissions from the front of the ready queue and returns
    /// them, oldest first.
    pub fn drain(&mut self, n: usize) -> (r: Vec<(ReadyKey, Transmission)>)
        requires
            old(self).wf(),
        ensures
            final(self).wf(),
            r@.len() == if n < old(self).ready_view().len() { n as int } else { old(self).ready_view().len() as int },
            r@ == old(self).ready_view().take(r@.len() as int),
            final(self).ready_view() == old(self).ready_view().skip(r@.len() as int),
            final(self).pending_view() == old(self).pending_view(),
            final(self).id_view() == old(self).id_view(),
    {
        let len = ready_len(&self.ready);
        let k = if n < len {
            n
        } else {
            len
        };
        let ghost before = ready_entries(self.ready);
        let r = ready_drain_front(&mut self.ready, k);
        proof {
            assert forall|i: int, j: int| 0 <= i < before.skip(k as int).len() && 0 <= j < before.skip(k as int).len() && i != j
                implies #[trigger] before.skip(k as int)[i].0 != #[trigger] before.skip(k as int)[j].0 by {
                assert(before.skip(k as int)[i] == before[i + k]);
                assert(before.skip(k as int)[j] == before[j + k]);
            }
        }
        r
    }

    /// Puts a transmission back into the ready queue, unless it is held anywhere.
    /// Returns `true` if it was added.
    pub fn reinsert(
        &mut self,
        tid: TransmissionId,
        transmission: Transmission,
        proposed: &Vec<(TransmissionId, Transmission)>,
        storage: &Storage,
        ledger: &Ledger,
    ) -> (r: bool)
        requires
            old(self).wf(),
        ensures
            final(self).wf(),
            r == !old(self).holds(proposed@, *storage, *ledger, tid),
            r ==> final(self).ready_view() == old(self).ready_view().push((key_of(tid), transmission)),
            !r ==> final(self).ready_view() == old(self).ready_view(),
            final(self).pending_view() == old(self).pending_view(),
            final(self).id_view() == old(self).id_view(),
    {
        if !self.contains_transmission(tid, proposed, storage, ledger) {
            let _ = ready_insert(&mut self.ready, tid.key(), transmission);
            return true;
        }
        false
    }

    /// Admits an unconfirmed solution whose bytes have checksum `solution.checksum`,
    /// given the puzzle's verdict for the current epoch. Its identifier leaves the
    /// pending set. A solution held anywhere is a duplicate; one that fails the ledger's
    /// basic check is rejected; otherwise it joins the back of the ready queue.
    pub fn process_unconfirmed_solution(
        &mut self,
        solution_id: u64,
        solution: Payload,
        puzzle_accepts: bool,
        proposed: &Vec<(TransmissionId, Transmission)>,
        storage: &Storage,
        ledger: &Ledger,
    ) -> (r: Result<(), WorkerError>)
        requires
            old(self).wf(),
        ensures
            final(self).wf(),
            final(self).id_view() == old(self).id_view(),
            final(self).pending_view() == old(self).pending_view().filter(
                |x: TransmissionId| x != TransmissionId { kind: TransmissionKind::Solution, id: solution_id, checksum: solution.checksum },
            ),
            ({
                let tid = TransmissionId { kind: TransmissionKind::Solution, id: solution_id, checksum: solution.checksum };
                match r {
                    Err(WorkerError::DuplicateTransmission) => old(self).holds(proposed@, *storage, *ledger, tid)
                        && final(self).ready_view() == old(self).ready_view(),
                    Err(WorkerError::Rejected(e)) => !old(self).holds(proposed@, *storage, *ledger, tid)
                        && solution_fault(solution_id, solution, puzzle_accepts) == Some(e)
                        && final(self).ready_view() == old(self).ready_view(),
                    Err(_) => false,
                    Ok(()) => !old(self).holds(proposed@, *storage, *ledger, tid)
                        && solution_fault(solution_id, solution, puzzle_accepts) is None
                        && final(self).ready_view() == old(self).ready_view().push((key_of(tid), Transmission::Solution(solution))),
                }
            }),
    {
        let tid = TransmissionId::solution(solution_id, solution.checksum);
        self.remove_pending(tid);
        if self.contains_transmission(tid, proposed, storage, ledger) {
            return Err(WorkerError::DuplicateTransmission);
        }
        match check_solution_basic(solution_id, &solution, puzzle_accepts) {
            Ok(()) => {},
            Err(e) => {
                return Err(WorkerError::Rejected(e));
            },
        }
        let _ = ready_insert(&mut self.ready, tid.key(), Transmission::Solution(solution));
        Ok(())
    }

    /// Admits an unconfirmed transaction whose bytes have checksum
    /// `transaction.checksum`, given the virtual machine's verdict. Its identifier
    /// leaves the pending set. A transaction held anywhere is a duplicate; one that
    /// fails the ledger's basic check is rejected; otherwise it joins the back of the
    /// ready queue.
    pub fn process_unconfirmed_transaction(
        &mut self,
        transaction_id: u64,
        transaction: Payload,
        vm_accepts: bool,
        proposed: &Vec<(TransmissionId, Transmission)>,
        storage: &Storage,
        ledger: &Ledger,
    ) -> (r: Result<(), WorkerError>)
        requires
            old(self).wf(),
        ensures
            final(self).wf(),
            final(self).id_view() == old(self).id_view(),
            final(self).pending_view() == old(self).pending_view().filter(
                |x: TransmissionId| x != TransmissionId { kind: TransmissionKind::Transaction, id: transaction_id, checksum: transaction.checksum },
            ),
            ({
                let tid = TransmissionId { kind: TransmissionKind::Transaction, id: transaction_id, checksum: transaction.checksum };
                match r {
                    Err(WorkerError::DuplicateTransmission) => old(self).holds(proposed@, *storage, *ledger, tid)
                        && final(self).ready_view() == old(self).ready_view(),
                    Err(WorkerError::Rejected(e)) => !old(self).holds(proposed@, *storage, *ledger, tid)
                        && transaction_fault(transaction_id, transaction, vm_accepts) == Some(e)
                        && final(self).ready_view() == old(self).ready_view(),
                    Err(_) => false,
                    Ok(()) => !old(self).holds(proposed@, *storage, *ledger, tid)
                        && transaction_fault(transaction_id, transaction, vm_accepts) is None
                        && final(self).ready_view() == old(self).ready_view().push((key_of(tid), Transmission::Transaction(transaction))),
                }
            }),
    {
        let tid = TransmissionId::transaction(transaction_id, transaction.checksum);
        self.remove_pending(tid);
        if self.contains_transmission(tid, proposed, storage, ledger) {
            return Err(WorkerError::DuplicateTransmission);
        }
        match check_transaction_basic(transaction_id, &transaction, vm_accepts) {
            Ok(()) => {},
            Err(e) => {
                return Err(WorkerError::Rejected(e));
            },
        }
        let _ = ready_insert(&mut self.ready, tid.key(), Transmission::Transaction(transaction));
        Ok(())
    }
}

/// The local copy of a transmission: from the ready entries, else from storage, else
/// from the proposed batch's transmissions.
pub open spec fn local_copy(
    ready: Seq<(ReadyKey, Transmission)>,
    stored: Seq<(TransmissionId, Transmission)>,
    proposed: Seq<(TransmissionId, Transmission)>,
    tid: TransmissionId,
) -> Option<Transmission> {
    if has_key(ready, key_of(tid)) {
        assoc(ready, key_of(tid))
    } else if has_key(stored, tid) {
        assoc(stored, tid)
    } else {
        assoc(proposed, tid)
    }
}

/// The number of entries whose key has kind tag `tag`.
pub open spec fn count_tag(s: Seq<(ReadyKey, Transmission)>, tag: u8) -> nat
    decreases s.len(),
{
    if s.len() == 0 {
        0
    } else {
        count_tag(s.drop_last(), tag) + if s.last().0.0 == tag {
            1nat
        } else {
            0nat
        }
    }
}

/// Returns the position of `tid` among the proposed batch's transmissions.
pub fn proposed_index(proposed: &Vec<(TransmissionId, Transmission)>, tid: TransmissionId) -> (r: Option<usize>)
    ensures
        match r {
            Some(i) => i < proposed@.len() && proposed@[i as int].0 == tid,
            None => !has_key(proposed@, tid),
        },
        r is None <==> !has_key(proposed@, tid),
{
    let mut i: usize = 0;
    while i < proposed.len()
        invariant
            i <= proposed@.len(),
            forall|k: int| 0 <= k < i ==> proposed@[k].0 != tid,
        decreases proposed.len() - i,
    {
        if proposed[i].0 == tid {
            return Some(i);
        }
        i = i + 1;
    }
    None
}

/// A ready queue holds each transmission at most once: processing the same
/// transmission twice leaves at most one entry for it.
pub proof fn lemma_ready_at_most_once(w: Worker, tid: TransmissionId)
    requires
        w.wf(),
    ensures
        forall|i: int, j: int|
            0 <= i < w.ready_view().len() && 0 <= j < w.ready_view().len() && w.ready_view()[i].0 == key_of(tid)
                && w.ready_view()[j].0 == key_of(tid) ==> i == j,
{
}

/// Once a transmission was admitted, it is held, so a second push of it is refused
/// as a duplicate.
pub proof fn lemma_admitted_is_held(
    before: Seq<(ReadyKey, Transmission)>,
    after: Seq<(ReadyKey, Transmission)>,
    tid: TransmissionId,
    t: Transmission,
    proposed: Seq<(TransmissionId, Transmission)>,
    storage: Storage,
    ledger: Ledger,
)
    requires
        after == before.push((key_of(tid), t)),
    ensures
        held_anywhere(after, proposed, storage, ledger, tid),
{
    assert(after[before.len() as int].0 == key_of(tid));
}

impl Worker {
    /// Removes the solutions from the ready queue; the other entries keep their order.
    pub fn clear_solutions(&mut self)
        requires
            old(self).wf(),
        ensures
            final(self).wf(),
            final(self).ready_view() == old(self).ready_view().filter(not_solution()),
            final(self).pending_view() == old(self).pending_view(),
            final(self).id_view() == old(self).id_view(),
    {
        let n = ready_len(&self.ready);
        let ghost orig = ready_entries(self.ready);
        let mut all = ready_drain_front(&mut self.ready, n);
        assert(orig.take(n as int) =~= orig);
        assert(ready_entries(self.ready).len() == 0);
        assert(ready_entries(self.ready) =~= orig.take(0).filter(not_solution()));
        let mut i: usize = 0;
        while all.len() > 0
            invariant
                n == orig.len(),
                keys_unique(orig),
                all@ == orig.skip(i as int),
                i + all@.len() == n,
                ready_entries(self.ready) == orig.take(i as int).filter(not_solution()),
                keys_unique(ready_entries(self.ready)),
                self.pending == old(self).pending,
                self.id == old(self).id,
            decreases all.len(),
        {
            let e = all.remove(0);
            proof {
                assert(e == orig[i as int]);
                assert(orig.take(i + 1) =~= orig.take(i as int).push(e));
                orig.take(i as int).lemma_filter_push(e, not_solution());
                assert(all@ =~= orig.skip(i + 1));
                assert(!has_key(ready_entries(self.ready), e.0)) by {
                    if has_key(ready_entries(self.ready), e.0) {
                        let j = choose|j: int| 0 <= j < ready_entries(self.ready).len() && #[trigger] ready_entries(self.ready)[j].0 == e.0;
                        orig.take(i as int).lemma_filter_contains_rev(not_solution(), ready_entries(self.ready)[j]);
                        let k = choose|k: int| 0 <= k < i && orig.take(i as int)[k] == ready_entries(self.ready)[j];
                        assert(orig[k].0 == orig[i as int].0);
                    }
                }
            }
            if e.0.0 != 1 {
                let _ = ready_insert(&mut self.ready, e.0, e.1);
            }
            i = i + 1;
        }
        assert(orig.take(n as int) =~= orig);
    }
}

/// An entry is not a solution.
pub open spec fn not_solution() -> spec_fn((ReadyKey, Transmission)) -> bool {
    |e: (ReadyKey, Transmission)| e.0.0 != 1
}

} // verus!
