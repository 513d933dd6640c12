use vstd::prelude::*;

use crate::assoc::{assoc, has_key, keys_unique, lemma_assoc_at, lemma_assoc_push};
use crate::types::{
    seq_contains, seq_unique, vec_contains_id, BatchCertificate, Transmission,
    TransmissionId,
};

verus! {

/// Why a certificate was not inserted.
#[derive(Clone, Copy, Debug, PartialEq, Eq, Structural)]
pub enum StorageError {
    /// The certificate's round is at or below the garbage-collection round.
    StaleRound,
    /// A certificate with the same identifier is already resident.
    DuplicateCertificate,
    /// The header repeats an identifier, its author already has a certificate in
    /// that round, or it names a previous certificate that is not resident.
    MalformedHeader,
    /// A transmission of the header is neither resident nor supplied.
    MissingTransmissions,
}

/// The garbage-collection round for a current round: `max_gc_rounds` below it, or zero.
pub open spec fn gc_of(current: u64, max_gc_rounds: u64) -> u64 {
    if current >= max_gc_rounds {
        (current - max_gc_rounds) as u64
    } else {
        0
    }
}

/// A certificate survives garbage collection at `gc`.
pub open spec fn survives_gc(c: BatchCertificate, gc: u64) -> bool {
    c.header.round > gc
}

/// Some certificate in `certs` has identifier `id`.
pub open spec fn has_certificate(certs: Seq<BatchCertificate>, id: u64) -> bool {
    exists|i: int| 0 <= i < certs.len() && #[trigger] certs[i].certificate_id == id
}

/// Some certificate in `certs` has batch identifier `batch_id`.
pub open spec fn has_batch(certs: Seq<BatchCertificate>, batch_id: u64) -> bool {
    exists|i: int| 0 <= i < certs.len() && #[trigger] certs[i].header.batch_id == batch_id
}

/// Some certificate in `certs` was authored by `author` in `round`.
pub open spec fn has_certificate_from(certs: Seq<BatchCertificate>, round: u64, author: u64) -> bool {
    exists|i: int| 0 <= i < certs.len() && #[trigger] certs[i].header.round == round && certs[i].header.author == author
}

/// Some certificate in `certs` was made in `round` and has identifier `id`.
pub open spec fn has_certificate_at(certs: Seq<BatchCertificate>, round: u64, id: u64) -> bool {
    exists|i: int| 0 <= i < certs.len() && #[trigger] certs[i].certificate_id == id && certs[i].header.round == round
}

/// Some certificate in `certs` carries transmission `tid`.
pub open spec fn referenced(certs: Seq<BatchCertificate>, tid: TransmissionId) -> bool {
    exists|i: int, k: int| 0 <= i < certs.len() && 0 <= k < certs[i].header.transmission_ids@.len()
        && #[trigger] certs[i].header.transmission_ids@[k] == tid
}

/// Every transmission of every certificate is resident.
pub open spec fn transmissions_closed(certs: Seq<BatchCertificate>, txs: Seq<(TransmissionId, Transmission)>) -> bool {
    forall|i: int, k: int| 0 <= i < certs.len() && 0 <= k < certs[i].header.transmission_ids@.len()
        ==> has_key(txs, #[trigger] certs[i].header.transmission_ids@[k])
}

/// No two certificates share an identifier, nor an (author, round).
pub open spec fn certificates_distinct(certs: Seq<BatchCertificate>) -> bool {
    forall|i: int, j: int| 0 <= i < certs.len() && 0 <= j < certs.len() && i != j ==> {
        &&& #[trigger] certs[i].certificate_id != #[trigger] certs[j].certificate_id
        &&& !(certs[i].header.round == certs[j].header.round && certs[i].header.author == certs[j].header.author)
    }
}

/// The in-memory, round-indexed store of batch certificates and of the transmissions
/// they carry.
#[derive(Debug)]
pub struct Storage {
    current_round: u64,
    gc_round: u64,
    max_gc_rounds: u64,
    certificates: Vec<BatchCertificate>,
    transmissions: Vec<(TransmissionId, Transmission)>,
}

impl Storage {
    pub closed spec fn current_round_view(&self) -> u64 {
        self.current_round
    }

    pub closed spec fn gc_round_view(&self) -> u64 {
        self.gc_round
    }

    pub closed spec fn max_gc_rounds_view(&self) -> u64 {
        self.max_gc_rounds
    }

    /// The resident certificates.
    pub closed spec fn certs_view(&self) -> Seq<BatchCertificate> {
        self.certificates@
    }

    /// The resident transmissions, by identifier.
    pub closed spec fn txs_view(&self) -> Seq<(TransmissionId, Transmission)> {
        self.transmissions@
    }

    /// The storage invariant: the GC round trails the current round by
    /// `max_gc_rounds`; no resident certificate is at or below it; certificates are
    /// distinct by identifier and by (author, round); each transmission is held once;
    /// and every transmission of a resident certificate is resident.
    pub open spec fn wf(&self) -> bool {
        &&& self.gc_round_view() == gc_of(self.current_round_view(), self.max_gc_rounds_view())
        &&& forall|i: int| 0 <= i < self.certs_view().len() ==> survives_gc(#[trigger] self.certs_view()[i], self.gc_round_view())
        &&& certificates_distinct(self.certs_view())
        &&& keys_unique(self.txs_view())
        &&& transmissions_closed(self.certs_view(), self.txs_view())
    }

    /// The header of `c` is well-formed against this storage: its transmissions and
    /// previous certificates are listed once each, its author has no certificate in
    /// that round yet, and each previous certificate is resident at the round before,
    /// unless that round has been garbage-collected.
    pub open spec fn header_well_formed(&self, c: BatchCertificate) -> bool {
        &&& seq_unique(c.header.transmission_ids@)
        &&& seq_unique(c.header.previous_certificate_ids@)
        &&& !has_certificate_from(self.certs_view(), c.header.round, c.header.author)
        &&& (c.header.round - 1 > self.gc_round_view() ==> forall|k: int| 0 <= k < c.header.previous_certificate_ids@.len()
            ==> has_certificate_at(self.certs_view(), (c.header.round - 1) as u64, #[trigger] c.header.previous_certificate_ids@[k]))
    }

    /// Every transmission of `c` is resident or supplied in `missing`.
    pub open spec fn transmissions_available(&self, c: BatchCertificate, missing: Seq<(TransmissionId, Transmission)>) -> bool {
        forall|k: int| 0 <= k < c.header.transmission_ids@.len() ==> has_key(self.txs_view(), #[trigger] c.header.transmission_ids@[k])
            || has_key(missing, c.header.transmission_ids@[k])
    }

    /// Why inserting `c` with the supplied transmissions `missing` fails, if it does,
    /// in the order checked.
    pub open spec fn insert_fault(&self, c: BatchCertificate, missing: Seq<(TransmissionId, Transmission)>) -> Option<StorageError> {
        if c.header.round <= self.gc_round_view() {
            Some(StorageError::StaleRound)
        } else if has_certificate(self.certs_view(), c.certificate_id) {
            Some(StorageError::DuplicateCertificate)
        } else if !self.header_well_formed(c) {
            Some(StorageError::MalformedHeader)
        } else if !self.transmissions_available(c, missing) {
            Some(StorageError::MissingTransmissions)
        } else {
            None
        }
    }

    /// Initializes the storage after a ledger whose latest round is `latest_round`:
    /// the current round is that round, or 1 if it is 0.
    pub fn new(latest_round: u64, max_gc_rounds: u64) -> (r: Storage)
        ensures
            r.wf(),
            r.current_round_view() == if latest_round == 0 { 1 } else { latest_round },
            r.max_gc_rounds_view() == max_gc_rounds,
            r.gc_round_view() == gc_of(r.current_round_view(), max_gc_rounds),
            r.certs_view().len() == 0,
            r.txs_view().len() == 0,
    {
        let current_round = if latest_round == 0 {
            1
        } else {
            latest_round
        };
        Storage {
            current_round,
            gc_round: current_round.saturating_sub(max_gc_rounds),
            max_gc_rounds,
            certificates: Vec::new(),
            transmissions: Vec::new(),
        }
    }

    /// Returns the current round.
    pub fn current_round(&self) -> (r: u64)
        ensures
            r == self.current_round_view(),
    {
        self.current_round
    }

    /// Returns the garbage-collection round.
    pub fn gc_round(&self) -> (r: u64)
        ensures
            r == self.gc_round_view(),
    {
        self.gc_round
    }

    /// Returns the number of rounds kept before garbage collection.
    pub fn max_gc_rounds(&self) -> (r: u64)
        ensures
            r == self.max_gc_rounds_view(),
    {
        self.max_gc_rounds
    }

    /// Returns the number of resident certificates.
    pub fn num_certificates(&self) -> (r: usize)
        ensures
            r == self.certs_view().len(),
    {
        self.certificates.len()
    }

    /// Returns `true` if the certificate is resident.
    pub fn contains_certificate(&self, certificate_id: u64) -> (r: bool)
        ensures
            r == has_certificate(self.certs_view(), certificate_id),
    {
        let mut i: usize = 0;
        while i < self.certificates.len()
            invariant
                i <= self.certificates@.len(),
                forall|k: int| 0 <= k < i ==> self.certificates@[k].certificate_id != certificate_id,
            decreases self.certificates.len() - i,
        {
            if self.certificates[i].certificate_id == certificate_id {
                assert(self.certificates@[i as int].certificate_id == certificate_id);
                return true;
            }
            i = i + 1;
        }
        false
    }

    /// Returns `true` if a certificate of the batch is resident.
    pub fn contains_batch(&self, batch_id: u64) -> (r: bool)
        ensures
            r == has_batch(self.certs_view(), batch_id),
    {
        let mut i: usize = 0;
        while i < self.certificates.len()
            invariant
                i <= self.certificates@.len(),
                forall|k: int| 0 <= k < i ==> self.certificates@[k].header.batch_id != batch_id,
            decreases self.certificates.len() - i,
        {
            if self.certificates[i].header.batch_id == batch_id {
                assert(self.certificates@[i as int].header.batch_id == batch_id);
                return true;
            }
            i = i + 1;
        }
        false
    }

    fn index_from(&self, round: u64, author: u64) -> (r: Option<usize>)
        ensures
            match r {
                Some(i) => i < self.certificates@.len() && self.certificates@[i as int].header.round == round
                    && self.certificates@[i as int].header.author == author,
                None => !has_certificate_from(self.certificates@, round, author),
            },
    {
        let mut i: usize = 0;
        while i < self.certificates.len()
            invariant
                i <= self.certificates@.len(),
                forall|k: int| 0 <= k < i ==> !(self.certificates@[k].header.round == round && self.certificates@[k].header.author == author),
            decreases self.certificates.len() - i,
        {
            if self.certificates[i].header.round == round && self.certificates[i].header.author == author {
                return Some(i);
            }
            i = i + 1;
        }
        None
    }

    /// Returns `true` if `author` has a resident certificate in `round`.
    pub fn contains_certificate_in_round_from(&self, round: u64, author: u64) -> (r: bool)
        ensures
            r == has_certificate_from(self.certs_view(), round, author),
    {
        self.index_from(round, author).is_some()
    }

    /// Returns the certificate of `author` in `round`, if resident.
    pub fn get_certificate_for_round_with_author(&self, round: u64, author: u64) -> (r: Option<&BatchCertificate>)
        ensures
            match r {
                Some(c) => seq_contains(self.certs_view(), *c) && c.header.round == round && c.header.author == author,
                None => !has_certificate_from(self.certs_view(), round, author),
            },
    {
        match self.index_from(round, author) {
            Some(i) => {
                assert(self.certificates@[i as int] == self.certificates@[i as int]);
                Some(&self.certificates[i])
            },
            None => None,
        }
    }

    /// Returns the identifiers of the resident certificates of `round`.
    pub fn certificate_ids_for_round(&self, round: u64) -> (r: Vec<u64>)
        ensures
            forall|id: u64| seq_contains(r@, id) <==> has_certificate_at(self.certs_view(), round, id),
    {
        let mut out: Vec<u64> = Vec::new();
        let mut i: usize = 0;
        while i < self.certificates.len()
            invariant
                i <= self.certificates@.len(),
                forall|id: u64| seq_contains(out@, id) <==> exists|k: int| 0 <= k < i && #[trigger] self.certificates@[k].certificate_id == id
                    && self.certificates@[k].header.round == round,
            decreases self.certificates.len() - i,
        {
            let ghost start = out@;
            if self.certificates[i].header.round == round {
                let id = self.certificates[i].certificate_id;
                let ghost before = out@;
                out.push(id);
                assert forall|x: u64| seq_contains(out@, x) <==> (seq_contains(before, x) || x == id) by {
                    if seq_contains(out@, x) && x != id {
                        let j = choose|j: int| 0 <= j < out@.len() && out@[j] == x;
                        assert(before[j] == x);
                    }
                    if x == id {
                        assert(out@[before.len() as int] == x);
                    }
                    if seq_contains(before, x) {
                        let j = choose|j: int| 0 <= j < before.len() && before[j] == x;
                        assert(out@[j] == x);
                    }
                }
            }
            proof {
                assert forall|x: u64| seq_contains(out@, x) <==> exists|k: int| 0 <= k < i + 1 && #[trigger] self.certificates@[k].certificate_id == x
                    && self.certificates@[k].header.round == round by {
                    if self.certificates@[i as int].certificate_id == x && self.certificates@[i as int].header.round == round {
                        assert(out@ == start.push(x));
                        assert(out@[start.len() as int] == x);
                        assert(seq_contains(out@, x));
                    } else {
                        assert(seq_contains(out@, x) == seq_contains(start, x));
                    }
                }
            }
            i = i + 1;
        }
        out
    }

    /// Returns the authors of the resident certificates of `round`.
    pub fn authors_for_round(&self, round: u64) -> (r: Vec<u64>)
        ensures
            forall|a: u64| seq_contains(r@, a) <==> has_certificate_from(self.certs_view(), round, a),
    {
        let mut out: Vec<u64> = Vec::new();
        let mut i: usize = 0;
        while i < self.certificates.len()
            invariant
                i <= self.certificates@.len(),
                forall|a: u64| seq_contains(out@, a) <==> exists|k: int| 0 <= k < i && #[trigger] self.certificates@[k].header.round == round
                    && self.certificates@[k].header.author == a,
            decreases self.certificates.len() - i,
        {
            let ghost start = out@;
            if self.certificates[i].header.round == round {
                let a = self.certificates[i].header.author;
                let ghost before = out@;
                out.push(a);
                assert forall|x: u64| seq_contains(out@, x) <==> (seq_contains(before, x) || x == a) by {
                    if seq_contains(out@, x) && x != a {
                        let j = choose|j: int| 0 <= j < out@.len() && out@[j] == x;
                        assert(before[j] == x);
                    }
                    if x == a {
                        assert(out@[before.len() as int] == x);
                    }
                    if seq_contains(before, x) {
                        let j = choose|j: int| 0 <= j < before.len() && before[j] == x;
                        assert(out@[j] == x);
                    }
                }
            }
            proof {
                assert forall|x: u64| seq_contains(out@, x) <==> exists|k: int| 0 <= k < i + 1 && #[trigger] self.certificates@[k].header.round == round
                    && self.certificates@[k].header.author == x by {
                    if self.certificates@[i as int].header.author == x && self.certificates@[i as int].header.round == round {
                        assert(out@ == start.push(x));
                        assert(out@[start.len() as int] == x);
                        assert(seq_contains(out@, x));
                    } else {
                        assert(seq_contains(out@, x) == seq_contains(start, x));
                    }
                }
            }
            i = i + 1;
        }
        out
    }

    fn transmission_index(&self, tid: TransmissionId) -> (r: Option<usize>)
        ensures
            match r {
                Some(i) => i < self.transmissions@.len() && self.transmissions@[i as int].0 == tid,
                None => !has_key(self.transmissions@, tid),
            },
    {
        let mut i: usize = 0;
        while i < self.transmissions.len()
            invariant
                i <= self.transmissions@.len(),
                forall|k: int| 0 <= k < i ==> self.transmissions@[k].0 != tid,
            decreases self.transmissions.len() - i,
        {
            if self.transmissions[i].0 == tid {
                return Some(i);
            }
            i = i + 1;
        }
        None
    }

    /// Returns `true` if the transmission is resident.
    pub fn contains_transmission(&self, tid: TransmissionId) -> (r: bool)
        ensures
            r == has_key(self.txs_view(), tid),
    {
        self.transmission_index(tid).is_some()
    }

    /// Returns the resident transmission with the given identifier, if any.
    pub fn get_transmission(&self, tid: TransmissionId) -> (r: Option<&Transmission>)
        requires
            self.wf(),
        ensures
            match r {
                Some(t) => assoc(self.txs_view(), tid) == Some(*t),
                None => !has_key(self.txs_view(), tid),
            },
    {
        match self.transmission_index(tid) {
            Some(i) => {
                proof {
                    lemma_assoc_at(self.transmissions@, i as int);
                }
                Some(&self.transmissions[i].1)
            },
            None => None,
        }
    }
}

fn ids_unique(v: &Vec<TransmissionId>) -> (r: bool)
    ensures
        r == seq_unique(v@),
{
    let mut i: usize = 0;
    while i < v.len()
        invariant
            i <= v@.len(),
            forall|a: int, b: int| 0 <= a < i && 0 <= b < v@.len() && a != b ==> v@[a] != v@[b],
        decreases v.len() - i,
    {
        let mut j: usize = 0;
        while j < v.len()
            invariant
                i < v@.len(),
                j <= v@.len(),
                forall|b: int| 0 <= b < j && b != i ==> v@[i as int] != v@[b],
            decreases v.len() - j,
        {
            if j != i && v[j] == v[i] {
                return false;
            }
            j = j + 1;
        }
        i = i + 1;
    }
    true
}

fn u64s_unique(v: &Vec<u64>) -> (r: bool)
    ensures
        r == seq_unique(v@),
{
    let mut i: usize = 0;
    while i < v.len()
        invariant
            i <= v@.len(),
            forall|a: int, b: int| 0 <= a < i && 0 <= b < v@.len() && a != b ==> v@[a] != v@[b],
        decreases v.len() - i,
    {
        let mut j: usize = 0;
        while j < v.len()
            invariant
                i < v@.len(),
                j <= v@.len(),
                forall|b: int| 0 <= b < j && b != i ==> v@[i as int] != v@[b],
            decreases v.len() - j,
        {
            if j != i && v[j] == v[i] {
                return false;
            }
            j = j + 1;
        }
        i = i + 1;
    }
    true
}

fn supplied(missing: &Vec<(TransmissionId, Transmission)>, tid: TransmissionId) -> (r: bool)
    ensures
        r == has_key(missing@, tid),
{
    let mut i: usize = 0;
    while i < missing.len()
        invariant
            i <= missing@.len(),
            forall|k: int| 0 <= k < i ==> missing@[k].0 != tid,
        decreases missing.len() - i,
    {
        if missing[i].0 == tid {
            assert(missing@[i as int].0 == tid);
            return true;
        }
        i = i + 1;
    }
    false
}

proof fn lemma_has_key_extend<K, V>(s: Seq<(K, V)>, m: int, n: int, k: K)
    requires
        0 <= m < n <= s.len(),
    ensures
        has_key(s.subrange(m, n), k) == (s[m].0 == k || has_key(s.subrange(m + 1, n), k)),
{
    let a = s.subrange(m, n);
    let b = s.subrange(m + 1, n);
    if has_key(a, k) {
        let i = choose|i: int| 0 <= i < a.len() && #[trigger] a[i].0 == k;
        if i > 0 {
            assert(b[i - 1].0 == k);
        }
    }
    if has_key(b, k) {
        let i = choose|i: int| 0 <= i < b.len() && #[trigger] b[i].0 == k;
        assert(a[i + 1].0 == k);
    }
    if s[m].0 == k {
        assert(a[0].0 == k);
    }
}

impl Storage {
    /// Returns `true` if a certificate with identifier `id` from `round` is resident.
    pub fn contains_certificate_at(&self, round: u64, id: u64) -> (r: bool)
        ensures
            r == has_certificate_at(self.certs_view(), round, id),
    {
        let mut i: usize = 0;
        while i < self.certificates.len()
            invariant
                i <= self.certificates@.len(),
                forall|k: int| 0 <= k < i ==> !(self.certificates@[k].certificate_id == id && self.certificates@[k].header.round == round),
            decreases self.certificates.len() - i,
        {
            if self.certificates[i].certificate_id == id && self.certificates[i].header.round == round {
                assert(self.certificates@[i as int].certificate_id == id);
                return true;
            }
            i = i + 1;
        }
        false
    }

    fn header_ok(&self, c: &BatchCertificate) -> (r: bool)
        ensures
            r == self.header_well_formed(*c),
    {
        if !ids_unique(&c.header.transmission_ids) || !u64s_unique(&c.header.previous_certificate_ids) {
            return false;
        }
        if self.contains_certificate_in_round_from(c.header.round, c.header.author) {
            return false;
        }
        if c.header.round >= 1 && c.header.round - 1 > self.gc_round {
            let prev = c.header.round - 1;
            let mut k: usize = 0;
            while k < c.header.previous_certificate_ids.len()
                invariant
                    prev == c.header.round - 1,
                    c.header.round >= 1,
                    prev > self.gc_round_view(),
                    k <= c.header.previous_certificate_ids@.len(),
                    forall|j: int| 0 <= j < k ==> has_certificate_at(self.certs_view(), prev, #[trigger] c.header.previous_certificate_ids@[j]),
                decreases c.header.previous_certificate_ids.len() - k,
            {
                if !self.contains_certificate_at(prev, c.header.previous_certificate_ids[k]) {
                    return false;
                }
                k = k + 1;
            }
        }
        true
    }

    /// Inserts a certificate, with the transmissions it carries that are not yet
    /// resident supplied in `missing` (keyed by identifier). On success the certificate
    /// is resident and so is every transmission it carries; the round pointer does not
    /// move. On failure nothing changes.
    pub fn insert_certificate(&mut self, certificate: BatchCertificate, missing: Vec<(TransmissionId, Transmission)>) -> (r: Result<(), StorageError>)
        requires
            old(self).wf(),
            keys_unique(missing@),
        ensures
            final(self).wf(),
            final(self).current_round_view() == old(self).current_round_view(),
            final(self).gc_round_view() == old(self).gc_round_view(),
            final(self).max_gc_rounds_view() == old(self).max_gc_rounds_view(),
            match r {
                Ok(()) => old(self).insert_fault(certificate, missing@) is None,
                Err(e) => old(self).insert_fault(certificate, missing@) == Some(e) && *final(self) == *old(self),
            },
            r is Ok ==> final(self).certs_view() == old(self).certs_view().push(certificate),
            r is Ok ==> forall|tid: TransmissionId| #[trigger] assoc(final(self).txs_view(), tid) == if has_key(old(self).txs_view(), tid) {
                assoc(old(self).txs_view(), tid)
            } else if seq_contains(certificate.header.transmission_ids@, tid) {
                assoc(missing@, tid)
            } else {
                None
            },
            r is Ok ==> forall|k: int| 0 <= k < certificate.header.transmission_ids@.len() ==> has_key(
                final(self).txs_view(),
                #[trigger] certificate.header.transmission_ids@[k],
            ),
    {
        if certificate.header.round <= self.gc_round {
            return Err(StorageError::StaleRound);
        }
        if self.contains_certificate(certificate.certificate_id) {
            return Err(StorageError::DuplicateCertificate);
        }
        if !self.header_ok(&certificate) {
            return Err(StorageError::MalformedHeader);
        }
        let mut k: usize = 0;
        while k < certificate.header.transmission_ids.len()
            invariant
                *self == *old(self),
                old(self).wf(),
                certificate.header.round > old(self).gc_round_view(),
                !has_certificate(old(self).certs_view(), certificate.certificate_id),
                old(self).header_well_formed(certificate),
                k <= certificate.header.transmission_ids@.len(),
                forall|j: int| 0 <= j < k ==> has_key(self.txs_view(), #[trigger] certificate.header.transmission_ids@[j])
                    || has_key(missing@, certificate.header.transmission_ids@[j]),
            decreases certificate.header.transmission_ids.len() - k,
        {
            let tid = certificate.header.transmission_ids[k];
            if !self.contains_transmission(tid) && !supplied(&missing, tid) {
                return Err(StorageError::MissingTransmissions);
            }
            k = k + 1;
        }
        let ghost orig_txs = self.transmissions@;
        let ghost orig_missing = missing@;
        let ghost tids = certificate.header.transmission_ids@;
        let ghost n = missing@.len() as int;
        let mut missing = missing;
        assert(orig_missing.subrange(n, n).len() == 0);
        while missing.len() > 0
            invariant
                old(self).wf(),
                certificate.header.round > old(self).gc_round_view(),
                !has_certificate(old(self).certs_view(), certificate.certificate_id),
                old(self).header_well_formed(certificate),
                old(self).transmissions_available(certificate, orig_missing),
                missing@.len() <= n,
                n == orig_missing.len(),
                missing@ == orig_missing.subrange(0, missing@.len() as int),
                keys_unique(orig_missing),
                keys_unique(self.transmissions@),
                tids == certificate.header.transmission_ids@,
                self.certificates == old(self).certificates,
                self.current_round == old(self).current_round,
                self.gc_round == old(self).gc_round,
                self.max_gc_rounds == old(self).max_gc_rounds,
                orig_txs == old(self).transmissions@,
                forall|tid: TransmissionId| #[trigger] assoc(self.transmissions@, tid) == if has_key(orig_txs, tid) {
                    assoc(orig_txs, tid)
                } else if seq_contains(tids, tid) && has_key(orig_missing.subrange(missing@.len() as int, n), tid) {
                    assoc(orig_missing, tid)
                } else {
                    None
                },
            decreases missing.len(),
        {
            let m = missing.len() - 1;
            let ghost txs_before = self.transmissions@;
            let ghost missing_before = missing@;
            match missing.pop() {
                Some((tid, t)) => {
                    proof {
                        assert(missing_before[m as int] == orig_missing[m as int]);
                        assert(orig_missing[m as int] == (tid, t));
                        lemma_assoc_at(orig_missing, m as int);
                        assert forall|x: TransmissionId| has_key(orig_missing.subrange(m as int, n), x) == (tid == x || has_key(orig_missing.subrange(m + 1, n), x)) by {
                            lemma_has_key_extend(orig_missing, m as int, n, x);
                        }
                        if has_key(orig_missing.subrange(m + 1, n), tid) {
                            let i = choose|i: int| 0 <= i < orig_missing.subrange(m + 1, n).len() && #[trigger] orig_missing.subrange(m + 1, n)[i].0 == tid;
                            assert(orig_missing[m + 1 + i].0 == tid);
                        }
                    }
                    if vec_contains_id(&certificate.header.transmission_ids, tid) && !self.contains_transmission(tid) {
                        proof {
                            lemma_assoc_push(self.transmissions@, tid, t);
                        }
                        self.transmissions.push((tid, t));
                    }
                    assert(missing@ =~= orig_missing.subrange(0, missing@.len() as int));
                    proof {
                        assert(!has_key(orig_missing.subrange(m + 1, n), tid));
                        assert forall|x: TransmissionId| #[trigger] assoc(self.transmissions@, x) == if has_key(orig_txs, x) {
                            assoc(orig_txs, x)
                        } else if seq_contains(tids, x) && has_key(orig_missing.subrange(m as int, n), x) {
                            assoc(orig_missing, x)
                        } else {
                            None
                        } by {
                            assert(assoc(txs_before, x) == if has_key(orig_txs, x) {
                                assoc(orig_txs, x)
                            } else if seq_contains(tids, x) && has_key(orig_missing.subrange(m + 1, n), x) {
                                assoc(orig_missing, x)
                            } else {
                                None
                            });
                            if x == tid {
                                if has_key(orig_txs, tid) {
                                    assert(assoc(txs_before, tid) is Some);
                                    assert(has_key(txs_before, tid));
                                }
                            }
                        }
                    }
                },
                None => {},
            }
        }
        assert(orig_missing.subrange(0, n) =~= orig_missing);
        let ghost certs_before = self.certificates@;
        self.certificates.push(certificate);
        proof {
            let certs = self.certificates@;
            assert forall|i: int| 0 <= i < certs.len() implies survives_gc(#[trigger] certs[i], self.gc_round) by {
                if i < certs_before.len() {
                    assert(certs[i] == certs_before[i]);
                }
            }
            assert forall|i: int, j: int| 0 <= i < certs.len() && 0 <= j < certs.len() && i != j implies {
                &&& #[trigger] certs[i].certificate_id != #[trigger] certs[j].certificate_id
                &&& !(certs[i].header.round == certs[j].header.round && certs[i].header.author == certs[j].header.author)
            } by {
                if i == certs_before.len() {
                    assert(certs[j] == certs_before[j]);
                    assert(certs_before[j].certificate_id != certificate.certificate_id);
                    assert(!(certs_before[j].header.round == certificate.header.round && certs_before[j].header.author == certificate.header.author));
                } else if j == certs_before.len() {
                    assert(certs[i] == certs_before[i]);
                    assert(certs_before[i].certificate_id != certificate.certificate_id);
                    assert(!(certs_before[i].header.round == certificate.header.round && certs_before[i].header.author == certificate.header.author));
                } else {
                    assert(certs[i] == certs_before[i]);
                    assert(certs[j] == certs_before[j]);
                    assert(certs_before[i].certificate_id != certs_before[j].certificate_id);
                }
            }
            assert forall|i: int, k: int| 0 <= i < certs.len() && 0 <= k < certs[i].header.transmission_ids@.len()
                implies has_key(self.transmissions@, #[trigger] certs[i].header.transmission_ids@[k]) by {
                let x = certs[i].header.transmission_ids@[k];
                if i < certs_before.len() {
                    assert(certs[i] == certs_before[i]);
                    assert(x == certs_before[i].header.transmission_ids@[k]);
                    assert(has_key(orig_txs, x));
                } else {
                    assert(x == tids[k]);
                    assert(seq_contains(tids, x));
                }
                assert(assoc(self.transmissions@, x) is Some);
            }
            assert forall|k: int| 0 <= k < tids.len() implies has_key(self.transmissions@, #[trigger] tids[k]) by {
                assert(seq_contains(tids, tids[k]));
                assert(assoc(self.transmissions@, tids[k]) is Some);
            }
        }
        Ok(())
    }
}

impl Storage {
    /// Returns `true` if a resident certificate carries the transmission.
    pub fn is_referenced(&self, tid: TransmissionId) -> (r: bool)
        ensures
            r == referenced(self.certs_view(), tid),
    {
        let mut i: usize = 0;
        while i < self.certificates.len()
            invariant
                i <= self.certificates@.len(),
                forall|a: int, k: int| 0 <= a < i && 0 <= k < self.certificates@[a].header.transmission_ids@.len()
                    ==> #[trigger] self.certificates@[a].header.transmission_ids@[k] != tid,
            decreases self.certificates.len() - i,
        {
            if vec_contains_id(&self.certificates[i].header.transmission_ids, tid) {
                let ghost j = choose|j: int| 0 <= j < self.certificates@[i as int].header.transmission_ids@.len()
                    && self.certificates@[i as int].header.transmission_ids@[j] == tid;
                assert(self.certificates@[i as int].header.transmission_ids@[j] == tid);
                return true;
            }
            i = i + 1;
        }
        false
    }

    /// Removes the certificates at or below the GC round, then the transmissions that
    /// no remaining certificate carries.
    fn garbage_collect(&mut self)
        requires
            old(self).gc_round == gc_of(old(self).current_round, old(self).max_gc_rounds),
            certificates_distinct(old(self).certificates@),
            keys_unique(old(self).transmissions@),
            transmissions_closed(old(self).certificates@, old(self).transmissions@),
        ensures
            final(self).wf(),
            final(self).current_round == old(self).current_round,
            final(self).gc_round == old(self).gc_round,
            final(self).max_gc_rounds == old(self).max_gc_rounds,
            final(self).certificates@ == old(self).certificates@.filter(|c: BatchCertificate| survives_gc(c, old(self).gc_round)),
            forall|tid: TransmissionId| #[trigger] has_key(final(self).transmissions@, tid) == (has_key(old(self).transmissions@, tid)
                && referenced(final(self).certificates@, tid)),
            forall|tid: TransmissionId| has_key(final(self).transmissions@, tid) ==> #[trigger] assoc(final(self).transmissions@, tid)
                == assoc(old(self).transmissions@, tid),
    {
        let gc = self.gc_round;
        let ghost keep = |c: BatchCertificate| survives_gc(c, gc);
        let mut pending: Vec<BatchCertificate> = Vec::new();
        std::mem::swap(&mut self.certificates, &mut pending);
        let ghost orig = pending@;
        let ghost n = orig.len() as int;
        let mut kept: Vec<BatchCertificate> = Vec::new();
        let ghost mut idx: Seq<int> = Seq::empty();
        assert(orig.subrange(0, 0) =~= Seq::<BatchCertificate>::empty());
        assert(orig.subrange(0, n) =~= orig);
        while pending.len() > 0
            invariant
                n == orig.len(),
                orig == old(self).certificates@,
                keep == (|c: BatchCertificate| survives_gc(c, gc)),
                pending@.len() <= n,
                pending@ == orig.subrange(n - pending@.len(), n),
                kept@ == orig.subrange(0, n - pending@.len()).filter(keep),
                certificates_distinct(orig),
                idx.len() == kept@.len(),
                forall|i: int| 0 <= i < idx.len() ==> 0 <= #[trigger] idx[i] < n - pending@.len() && kept@[i] == orig[idx[i]],
                forall|i: int, j: int| 0 <= i < idx.len() && 0 <= j < idx.len() && i != j ==> idx[i] != idx[j],
                forall|i: int| 0 <= i < kept@.len() ==> survives_gc(#[trigger] kept@[i], gc),
            decreases pending.len(),
        {
            let ghost p = n - pending@.len();
            let ghost before = pending@;
            let c = pending.remove(0);
            proof {
                assert(c == orig[p]);
                assert(orig.subrange(0, p + 1) =~= orig.subrange(0, p).push(c));
                orig.subrange(0, p).lemma_filter_push(c, keep);
                assert(pending@ =~= orig.subrange(p + 1, n));
            }
            if c.header.round > gc {
                kept.push(c);
                proof {
                    idx = idx.push(p);
                }
            }
        }
        proof {
            assert forall|i: int, j: int| 0 <= i < kept@.len() && 0 <= j < kept@.len() && i != j implies {
                &&& #[trigger] kept@[i].certificate_id != #[trigger] kept@[j].certificate_id
                &&& !(kept@[i].header.round == kept@[j].header.round && kept@[i].header.author == kept@[j].header.author)
            } by {
                assert(kept@[i] == orig[idx[i]]);
                assert(kept@[j] == orig[idx[j]]);
                assert(orig[idx[i]].certificate_id != orig[idx[j]].certificate_id);
            }
        }
        self.certificates = kept;
        // Drop the transmissions that no remaining certificate carries.
        let mut tpending: Vec<(TransmissionId, Transmission)> = Vec::new();
        std::mem::swap(&mut self.transmissions, &mut tpending);
        let ghost torig = tpending@;
        let ghost tn = torig.len() as int;
        let ghost certs = self.certificates@;
        let ghost tkeep = |e: (TransmissionId, Transmission)| referenced(certs, e.0);
        let ghost mut tidx: Seq<int> = Seq::empty();
        assert(torig.subrange(0, 0) =~= Seq::<(TransmissionId, Transmission)>::empty());
        assert(torig.subrange(0, tn) =~= torig);
        while tpending.len() > 0
            invariant
                tn == torig.len(),
                torig == old(self).transmissions@,
                certs == self.certificates@,
                tkeep == (|e: (TransmissionId, Transmission)| referenced(certs, e.0)),
                self.gc_round == gc,
                self.current_round == old(self).current_round,
                self.max_gc_rounds == old(self).max_gc_rounds,
                keys_unique(torig),
                tpending@.len() <= tn,
                tpending@ == torig.subrange(tn - tpending@.len(), tn),
                self.transmissions@ == torig.subrange(0, tn - tpending@.len()).filter(tkeep),
                tidx.len() == self.transmissions@.len(),
                forall|i: int| 0 <= i < tidx.len() ==> 0 <= #[trigger] tidx[i] < tn - tpending@.len() && self.transmissions@[i] == torig[tidx[i]],
                forall|i: int, j: int| 0 <= i < tidx.len() && 0 <= j < tidx.len() && i != j ==> tidx[i] != tidx[j],
            decreases tpending.len(),
        {
            let ghost p = tn - tpending@.len();
            let e = tpending.remove(0);
            proof {
                assert(e == torig[p]);
                assert(torig.subrange(0, p + 1) =~= torig.subrange(0, p).push(e));
                torig.subrange(0, p).lemma_filter_push(e, tkeep);
                assert(tpending@ =~= torig.subrange(p + 1, tn));
            }
            if self.is_referenced(e.0) {
                self.transmissions.push(e);
                proof {
                    tidx = tidx.push(p);
                }
            }
        }
        proof {
            let txs = self.transmissions@;
            assert(keys_unique(txs)) by {
                assert forall|i: int, j: int| 0 <= i < txs.len() && 0 <= j < txs.len() && i != j implies #[trigger] txs[i].0 != #[trigger] txs[j].0 by {
                    assert(txs[i] == torig[tidx[i]]);
                    assert(txs[j] == torig[tidx[j]]);
                }
            }
            assert forall|tid: TransmissionId| #[trigger] has_key(txs, tid) == (has_key(torig, tid) && referenced(certs, tid)) by {
                if has_key(txs, tid) {
                    let i = choose|i: int| 0 <= i < txs.len() && #[trigger] txs[i].0 == tid;
                    assert(txs[i] == torig[tidx[i]]);
                    assert(torig[tidx[i]].0 == tid);
                    torig.lemma_filter_pred(tkeep, i);
                }
                if has_key(torig, tid) && referenced(certs, tid) {
                    let j = choose|j: int| 0 <= j < torig.len() && #[trigger] torig[j].0 == tid;
                    torig.lemma_filter_contains(tkeep, j);
                    let i = choose|i: int| 0 <= i < txs.len() && txs[i] == torig[j];
                    assert(txs[i].0 == tid);
                }
            }
            assert forall|tid: TransmissionId| has_key(txs, tid) implies #[trigger] assoc(txs, tid) == assoc(torig, tid) by {
                let i = choose|i: int| 0 <= i < txs.len() && #[trigger] txs[i].0 == tid;
                assert(txs[i] == torig[tidx[i]]);
                lemma_assoc_at(txs, i);
                lemma_assoc_at(torig, tidx[i]);
            }
            assert forall|i: int, k: int| 0 <= i < certs.len() && 0 <= k < certs[i].header.transmission_ids@.len()
                implies has_key(txs, #[trigger] certs[i].header.transmission_ids@[k]) by {
                let x = certs[i].header.transmission_ids@[k];
                orig.lemma_filter_pred(keep, i);
                orig.lemma_filter_contains_rev(keep, certs[i]);
                let j = choose|j: int| 0 <= j < orig.len() && orig[j] == certs[i];
                assert(x == orig[j].header.transmission_ids@[k]);
                assert(has_key(torig, x));
                assert(referenced(certs, x));
                assert(has_key(txs, x));
            }
            assert forall|i: int| 0 <= i < certs.len() implies survives_gc(#[trigger] certs[i], gc) by {
                orig.lemma_filter_pred(keep, i);
            }
        }
    }

    /// Advances the round pointer to `current_round + 1`, unless it is already at or
    /// past it, and garbage-collects the rounds at or below the new GC round. Returns
    /// the round pointer after the call.
    pub fn increment_to_next_round(&mut self, current_round: u64) -> (r: u64)
        requires
            old(self).wf(),
            current_round < u64::MAX,
        ensures
            final(self).wf(),
            r == final(self).current_round_view(),
            final(self).current_round_view() == if current_round + 1 > old(self).current_round_view() {
                (current_round + 1) as u64
            } else {
                old(self).current_round_view()
            },
            final(self).current_round_view() >= old(self).current_round_view(),
            final(self).max_gc_rounds_view() == old(self).max_gc_rounds_view(),
            final(self).certs_view() == old(self).certs_view().filter(|c: BatchCertificate| survives_gc(c, final(self).gc_round_view())),
            forall|tid: TransmissionId| #[trigger] has_key(final(self).txs_view(), tid) == (has_key(old(self).txs_view(), tid)
                && referenced(final(self).certs_view(), tid)),
            forall|tid: TransmissionId| has_key(final(self).txs_view(), tid) ==> #[trigger] assoc(final(self).txs_view(), tid)
                == assoc(old(self).txs_view(), tid),
    {
        let next = current_round + 1;
        if next > self.current_round {
            self.current_round = next;
            self.gc_round = next.saturating_sub(self.max_gc_rounds);
        }
        self.garbage_collect();
        self.current_round
    }
}

/// No resident certificate is at or below `current_round - max_gc_rounds`: the
/// storage invariant keeps every certificate above the GC round.
pub proof fn lemma_gc_bound(s: Storage)
    requires
        s.wf(),
    ensures
        forall|i: int| 0 <= i < s.certs_view().len() ==> #[trigger] s.certs_view()[i].header.round > gc_of(
            s.current_round_view(),
            s.max_gc_rounds_view(),
        ),
{
    assert forall|i: int| 0 <= i < s.certs_view().len() implies #[trigger] s.certs_view()[i].header.round > gc_of(
        s.current_round_view(),
        s.max_gc_rounds_view(),
    ) by {
        assert(survives_gc(s.certs_view()[i], s.gc_round_view()));
    }
}

/// Over any run of calls, each of which leaves the current round at least where it
/// was (as `insert_certificate` and `increment_to_next_round` ensure), the current
/// round never decreases.
pub proof fn lemma_current_round_monotone(states: Seq<Storage>)
    requires
        forall|k: int| 0 <= k < states.len() - 1 ==> #[trigger] states[k + 1].current_round_view() >= states[k].current_round_view(),
    ensures
        forall|i: int, j: int| 0 <= i <= j < states.len() ==> #[trigger] states[i].current_round_view() <= #[trigger] states[j].current_round_view(),
{
    assert forall|i: int, j: int| 0 <= i <= j < states.len() implies #[trigger] states[i].current_round_view() <= #[trigger] states[j].current_round_view() by {
        lemma_monotone_from(states, i, j);
    }
}

proof fn lemma_monotone_from(states: Seq<Storage>, i: int, j: int)
    requires
        0 <= i <= j < states.len(),
        forall|k: int| 0 <= k < states.len() - 1 ==> #[trigger] states[k + 1].current_round_view() >= states[k].current_round_view(),
    ensures
        states[i].current_round_view() <= states[j].current_round_view(),
    decreases j - i,
{
    if i < j {
        lemma_monotone_from(states, i, j - 1);
        assert(states[(j - 1) + 1].current_round_view() >= states[j - 1].current_round_view());
    }
}

/// Some certificate of `round` by `author` names `id` as a previous certificate.
pub open spec fn votes_for(certs: Seq<BatchCertificate>, round: u64, author: u64, id: u64) -> bool {
    exists|i: int| 0 <= i < certs.len() && #[trigger] certs[i].header.round == round && certs[i].header.author == author
        && seq_contains(certs[i].header.previous_certificate_ids@, id)
}

impl Storage {
    /// Returns the authors of the certificates of `round` that name `id` as a previous
    /// certificate.
    pub fn authors_linking_to(&self, round: u64, id: u64) -> (r: Vec<u64>)
        ensures
            forall|a: u64| seq_contains(r@, a) <==> votes_for(self.certs_view(), round, a, id),
    {
        let mut out: Vec<u64> = Vec::new();
        let mut i: usize = 0;
        while i < self.certificates.len()
            invariant
                i <= self.certificates@.len(),
                forall|a: u64| seq_contains(out@, a) <==> exists|k: int| 0 <= k < i && #[trigger] self.certificates@[k].header.round == round
                    && self.certificates@[k].header.author == a && seq_contains(self.certificates@[k].header.previous_certificate_ids@, id),
            decreases self.certificates.len() - i,
        {
            let ghost start = out@;
            if self.certificates[i].header.round == round
                && crate::types::vec_contains_u64(&self.certificates[i].header.previous_certificate_ids, id) {
                out.push(self.certificates[i].header.author);
            }
            proof {
                assert forall|x: u64| seq_contains(out@, x) <==> exists|k: int| 0 <= k < i + 1 && #[trigger] self.certificates@[k].header.round == round
                    && self.certificates@[k].header.author == x && seq_contains(self.certificates@[k].header.previous_certificate_ids@, id) by {
                    if seq_contains(out@, x) && !seq_contains(start, x) {
                        let j = choose|j: int| 0 <= j < out@.len() && out@[j] == x;
                        assert(j == start.len());
                    }
                    if seq_contains(start, x) {
                        let j = choose|j: int| 0 <= j < start.len() && start[j] == x;
                        assert(out@[j] == x);
                    }
                    if self.certificates@[i as int].header.round == round && self.certificates@[i as int].header.author == x
                        && seq_contains(self.certificates@[i as int].header.previous_certificate_ids@, id) {
                        assert(out@[out@.len() - 1] == x);
                    }
                }
            }
            i = i + 1;
        }
        out
    }
}

} // verus!
