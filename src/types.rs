use vstd::prelude::*;

verus! {

/// The most transmissions one batch may carry.
pub const MAX_TRANSMISSIONS_PER_BATCH: usize = 250;

/// The number of worker shards.
pub const MAX_WORKERS: u8 = 1;

/// The kind of a transmission.
#[derive(Clone, Copy, Debug, PartialEq, Eq, Structural, Hash)]
pub enum TransmissionKind {
    Ratification,
    Solution,
    Transaction,
}

/// The globally unique identifier of a transmission: its kind, the identifier of its
/// content, and the checksum of its bytes. A ratification carries zeros.
#[derive(Clone, Copy, Debug, PartialEq, Eq, Structural, Hash)]
pub struct TransmissionId {
    pub kind: TransmissionKind,
    pub id: u64,
    pub checksum: u128,
}

impl TransmissionId {
    /// The identifier of the ratification transmission.
    pub fn ratification() -> (r: TransmissionId)
        ensures
            r == (TransmissionId { kind: TransmissionKind::Ratification, id: 0, checksum: 0 }),
    {
        TransmissionId { kind: TransmissionKind::Ratification, id: 0, checksum: 0 }
    }

    /// The identifier of a solution.
    pub fn solution(id: u64, checksum: u128) -> (r: TransmissionId)
        ensures
            r == (TransmissionId { kind: TransmissionKind::Solution, id, checksum }),
    {
        TransmissionId { kind: TransmissionKind::Solution, id, checksum }
    }

    /// The identifier of a transaction.
    pub fn transaction(id: u64, checksum: u128) -> (r: TransmissionId)
        ensures
            r == (TransmissionId { kind: TransmissionKind::Transaction, id, checksum }),
    {
        TransmissionId { kind: TransmissionKind::Transaction, id, checksum }
    }

    /// The identifier as a tuple of integers: kind tag, content identifier, checksum.
    pub fn key(&self) -> (r: (u8, u64, u128))
        ensures
            r == key_of(*self),
    {
        let tag: u8 = match self.kind {
            TransmissionKind::Ratification => 0,
            TransmissionKind::Solution => 1,
            TransmissionKind::Transaction => 2,
        };
        (tag, self.id, self.checksum)
    }
}

/// The tuple of integers that stands for a transmission identifier.
pub open spec fn key_of(t: TransmissionId) -> (u8, u64, u128) {
    (
        match t.kind {
            TransmissionKind::Ratification => 0u8,
            TransmissionKind::Solution => 1u8,
            TransmissionKind::Transaction => 2u8,
        },
        t.id,
        t.checksum,
    )
}

/// The decoded content of a solution or transaction: the identifier that the content
/// itself carries, the checksum of its bytes, whether it is a fee transaction, and the
/// bytes. The identifier, checksum and fee flag are computed when the bytes are decoded.
#[derive(Debug)]
pub struct Payload {
    pub id: u64,
    pub checksum: u128,
    pub is_fee: bool,
    pub bytes: Vec<u8>,
}

/// A unit of content carried by a batch.
#[derive(Debug)]
pub enum Transmission {
    Ratification,
    Solution(Payload),
    Transaction(Payload),
}

/// Two transmissions hold the same content.
pub open spec fn same_transmission(a: Transmission, b: Transmission) -> bool {
    match (a, b) {
        (Transmission::Ratification, Transmission::Ratification) => true,
        (Transmission::Solution(p), Transmission::Solution(q)) => same_payload(p, q),
        (Transmission::Transaction(p), Transmission::Transaction(q)) => same_payload(p, q),
        _ => false,
    }
}

pub open spec fn same_payload(p: Payload, q: Payload) -> bool {
    p.id == q.id && p.checksum == q.checksum && p.is_fee == q.is_fee && p.bytes@ == q.bytes@
}

impl Payload {
    /// Returns a copy of the payload.
    pub fn duplicate(&self) -> (r: Payload)
        ensures
            same_payload(r, *self),
    {
        let bytes = self.bytes.clone();
        assert(bytes@ =~= self.bytes@);
        Payload { id: self.id, checksum: self.checksum, is_fee: self.is_fee, bytes }
    }
}

impl Transmission {
    /// Returns a copy of the transmission.
    pub fn duplicate(&self) -> (r: Transmission)
        ensures
            same_transmission(r, *self),
    {
        match self {
            Transmission::Ratification => Transmission::Ratification,
            Transmission::Solution(p) => Transmission::Solution(p.duplicate()),
            Transmission::Transaction(p) => Transmission::Transaction(p.duplicate()),
        }
    }

    /// Returns the kind of the transmission.
    pub fn kind(&self) -> (r: TransmissionKind)
        ensures
            r == kind_of(*self),
    {
        match self {
            Transmission::Ratification => TransmissionKind::Ratification,
            Transmission::Solution(_) => TransmissionKind::Solution,
            Transmission::Transaction(_) => TransmissionKind::Transaction,
        }
    }
}

/// The kind of a transmission.
pub open spec fn kind_of(t: Transmission) -> TransmissionKind {
    match t {
        Transmission::Ratification => TransmissionKind::Ratification,
        Transmission::Solution(_) => TransmissionKind::Solution,
        Transmission::Transaction(_) => TransmissionKind::Transaction,
    }
}

/// A batch header: its author, round, timestamp, committee, the transmissions it
/// carries, and the certificates of the previous round that it builds on. The batch
/// identifier is the content hash of the header.
#[derive(Debug)]
pub struct BatchHeader {
    pub batch_id: u64,
    pub author: u64,
    pub round: u64,
    pub timestamp: i64,
    pub committee_id: u64,
    pub transmission_ids: Vec<TransmissionId>,
    pub previous_certificate_ids: Vec<u64>,
}

/// A batch header with the signatures of other validators, identified by its
/// certificate identifier.
#[derive(Debug)]
pub struct BatchCertificate {
    pub certificate_id: u64,
    pub header: BatchHeader,
    pub signers: Vec<u64>,
}

/// A value of a sequence occurs in it.
pub open spec fn seq_contains<T>(s: Seq<T>, x: T) -> bool {
    exists|i: int| 0 <= i < s.len() && s[i] == x
}

/// No value occurs twice in the sequence.
pub open spec fn seq_unique<T>(s: Seq<T>) -> bool {
    forall|i: int, j: int| 0 <= i < s.len() && 0 <= j < s.len() && i != j ==> s[i] != s[j]
}

/// Returns `true` if `x` occurs in `v`.
pub fn vec_contains_id(v: &Vec<TransmissionId>, x: TransmissionId) -> (r: bool)
    ensures
        r == seq_contains(v@, x),
{
    let mut i: usize = 0;
    while i < v.len()
        invariant
            i <= v@.len(),
            forall|k: int| 0 <= k < i ==> v@[k] != x,
        decreases v.len() - i,
    {
        if v[i] == x {
            return true;
        }
        i = i + 1;
    }
    false
}

/// Returns `true` if `x` occurs in `v`.
pub fn vec_contains_u64(v: &Vec<u64>, x: u64) -> (r: bool)
    ensures
        r == seq_contains(v@, x),
{
    let mut i: usize = 0;
    while i < v.len()
        invariant
            i <= v@.len(),
            forall|k: int| 0 <= k < i ==> v@[k] != x,
        decreases v.len() - i,
    {
        if v[i] == x {
            return true;
        }
        i = i + 1;
    }
    false
}

} // verus!
