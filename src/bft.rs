use vstd::prelude::*;

use crate::committee::{leader_of, lookback_round, stake_of};
use crate::ledger::{committee_position, Ledger};
use crate::storage::{has_certificate_from, votes_for, Storage};
use crate::types::{seq_contains, seq_unique, vec_contains_id, BatchCertificate, TransmissionId};

verus! {

/// Why the commit rule could not be evaluated.
#[derive(Clone, Copy, Debug, PartialEq, Eq, Structural)]
pub enum CommitError {
    /// No committee is known for the lookback of the anchor round or of the next one.
    MissingCommittee,
}

/// The certificate identifier of `author`'s certificate of `round`, if storage holds one.
pub open spec fn certificate_of(storage: Storage, round: u64, author: u64) -> Option<u64> {
    if has_certificate_from(storage.certs_view(), round, author) {
        Some(storage.certs_view()[choose|i: int| 0 <= i < storage.certs_view().len() && #[trigger] storage.certs_view()[i].header.round
            == round && storage.certs_view()[i].header.author == author].certificate_id)
    } else {
        None
    }
}

/// The authors of round `round + 1` that reference the leader certificate `id` hold a
/// quorum of the stake of that round's committee lookback.
pub open spec fn leader_backed(storage: Storage, ledger: Ledger, round: u64, id: u64) -> bool {
    let cs = ledger.committees_view();
    let latest = ledger.latest_round_spec();
    exists|voters: Seq<u64>| #[trigger] voters_of(storage, (round + 1) as u64, id, voters)
        && stake_of(cs[committee_position(cs, latest, lookback_round((round + 1) as u64)).unwrap()].members_view(), voters)
            >= cs[committee_position(cs, latest, lookback_round((round + 1) as u64)).unwrap()].quorum_threshold_spec()
}

/// `voters` lists exactly the authors of `round` that reference certificate `id`.
pub open spec fn voters_of(storage: Storage, round: u64, id: u64, voters: Seq<u64>) -> bool {
    forall|a: u64| crate::types::seq_contains(voters, a) <==> #[trigger] votes_for(storage.certs_view(), round, a, id)
}

/// The commit rule for an even anchor round: the certificate of the round's elected
/// leader (elected by the round's committee lookback) is committed once the
/// certificates of the next round that reference it hold a quorum. Returns the leader
/// certificate's identifier when it is ready; `None` for an odd round, a missing leader
/// certificate, or too few references.
pub fn leader_certificate_ready(storage: &Storage, ledger: &mut Ledger, round: u64) -> (r: Result<Option<u64>, CommitError>)
    requires
        storage.wf(),
        old(ledger).wf(),
        round < u64::MAX,
    ensures
        final(ledger).wf(),
        final(ledger).committees_view() == old(ledger).committees_view(),
        final(ledger).rounds_view() == old(ledger).rounds_view(),
        final(ledger).hashes_view() == old(ledger).hashes_view(),
        round % 2 == 1 ==> r == Ok::<Option<u64>, CommitError>(None),
        round % 2 == 0 ==> ({
            let cs = old(ledger).committees_view();
            let latest = old(ledger).latest_round_spec();
            match committee_position(cs, latest, lookback_round(round)) {
                None => r == Err::<Option<u64>, CommitError>(CommitError::MissingCommittee),
                Some(pos) => {
                    let leader = leader_of(cs[pos].members_view(), round);
                    match certificate_of(*storage, round, leader) {
                        None => r == Ok::<Option<u64>, CommitError>(None),
                        Some(id) => if committee_position(cs, latest, lookback_round((round + 1) as u64)) is None {
                            r == Err::<Option<u64>, CommitError>(CommitError::MissingCommittee)
                        } else if leader_backed(*storage, *old(ledger), round, id) {
                            r == Ok::<Option<u64>, CommitError>(Some(id))
                        } else {
                            r == Ok::<Option<u64>, CommitError>(None)
                        },
                    }
                },
            }
        }),
{
    if round % 2 == 1 {
        return Ok(None);
    }
    let ghost l0 = *ledger;
    let pos = match ledger.get_committee_lookback_for_round(round) {
        Ok(p) => p,
        Err(_) => {
            return Err(CommitError::MissingCommittee);
        },
    };
    let leader = ledger.committee_at(pos).get_leader(round);
    let id = match storage.get_certificate_for_round_with_author(round, leader) {
        None => {
            return Ok(None);
        },
        Some(c) => {
            proof {
                let certs = storage.certs_view();
                let j = choose|j: int| 0 <= j < certs.len() && certs[j] == *c;
                let k = choose|i: int| 0 <= i < certs.len() && #[trigger] certs[i].header.round == round && certs[i].header.author == leader;
                assert(certs[j].header.round == round);
                if j != k {
                    assert(certs[j].certificate_id != certs[k].certificate_id);
                }
            }
            c.certificate_id
        },
    };
    let next_pos = match ledger.get_committee_lookback_for_round(round + 1) {
        Ok(p) => p,
        Err(_) => {
            return Err(CommitError::MissingCommittee);
        },
    };
    let voters = storage.authors_linking_to(round + 1, id);
    let backed = ledger.committee_at(next_pos).is_quorum_threshold_reached(&voters);
    proof {
        let m = ledger.committees_view()[next_pos as int].members_view();
        assert forall|other: Seq<u64>| #[trigger] voters_of(*storage, (round + 1) as u64, id, other)
            implies stake_of(m, other) == stake_of(m, voters@) by {
            crate::primary::lemma_stake_membership(m, other, voters@, m.len());
        }
        assert(voters_of(*storage, (round + 1) as u64, id, voters@));
    }
    if backed {
        Ok(Some(id))
    } else {
        Ok(None)
    }
}

/// Certificate `a` comes no later than `b` in commit order: by round, then by author.
pub open spec fn commit_le(a: BatchCertificate, b: BatchCertificate) -> bool {
    a.header.round < b.header.round || (a.header.round == b.header.round && a.header.author <= b.header.author)
}

/// `order` lists every position of `certs` once, in commit order.
pub open spec fn is_commit_order(certs: Seq<BatchCertificate>, order: Seq<usize>) -> bool {
    &&& order.len() == certs.len()
    &&& forall|i: int| 0 <= i < order.len() ==> order[i] < certs.len()
    &&& seq_unique(order)
    &&& forall|i: int, j: int| 0 <= i < j < order.len() ==> commit_le(certs[order[i] as int], certs[order[j] as int])
}

/// Returns the positions of the certificates in commit order: round ascending, then
/// author ascending.
pub fn commit_order(certs: &Vec<BatchCertificate>) -> (r: Vec<usize>)
    ensures
        is_commit_order(certs@, r@),
{
    let n = certs.len();
    let mut remaining: Vec<usize> = Vec::new();
    let mut k: usize = 0;
    while k < n
        invariant
            n == certs@.len(),
            k <= n,
            remaining@ == Seq::new(k as nat, |i: int| i as usize),
        decreases n - k,
    {
        remaining.push(k);
        k = k + 1;
        assert(remaining@ =~= Seq::new(k as nat, |i: int| i as usize));
    }
    let mut out: Vec<usize> = Vec::new();
    while remaining.len() > 0
        invariant
            n == certs@.len(),
            out@.len() + remaining@.len() == n,
            forall|i: int| 0 <= i < out@.len() ==> out@[i] < n,
            forall|i: int| 0 <= i < remaining@.len() ==> remaining@[i] < n,
            seq_unique(out@),
            seq_unique(remaining@),
            forall|i: int, k2: int| 0 <= i < out@.len() && 0 <= k2 < remaining@.len() ==> out@[i] != remaining@[k2],
            forall|i: int, j: int| 0 <= i < j < out@.len() ==> commit_le(certs@[out@[i] as int], certs@[out@[j] as int]),
            forall|i: int, k2: int| 0 <= i < out@.len() && 0 <= k2 < remaining@.len() ==> commit_le(
                certs@[out@[i] as int],
                certs@[remaining@[k2] as int],
            ),
        decreases remaining.len(),
    {
        let mut m: usize = 0;
        let mut j: usize = 1;
        while j < remaining.len()
            invariant
                n == certs@.len(),
                0 < remaining@.len(),
                forall|i: int| 0 <= i < remaining@.len() ==> remaining@[i] < n,
                m < remaining@.len(),
                1 <= j <= remaining@.len(),
                forall|k2: int| 0 <= k2 < j ==> commit_le(certs@[remaining@[m as int] as int], certs@[remaining@[k2] as int]),
            decreases remaining.len() - j,
        {
            let a = &certs[remaining[m]];
            let b = &certs[remaining[j]];
            if b.header.round < a.header.round || (b.header.round == a.header.round && b.header.author < a.header.author) {
                m = j;
            }
            j = j + 1;
        }
        let ghost rem0 = remaining@;
        let ghost out0 = out@;
        let x = remaining.remove(m);
        out.push(x);
        proof {
            assert forall|k2: int| 0 <= k2 < remaining@.len() implies remaining@[k2] == (if k2 < m { rem0[k2] } else { rem0[k2 + 1] }) by {}
            assert forall|i: int, k2: int| 0 <= i < out@.len() && 0 <= k2 < remaining@.len() implies out@[i] != remaining@[k2] by {
                if i == out0.len() {
                    if k2 < m {
                        assert(rem0[k2] != rem0[m as int]);
                    } else {
                        assert(rem0[k2 + 1] != rem0[m as int]);
                    }
                } else {
                    assert(out@[i] == out0[i]);
                }
            }
            assert forall|i: int, k2: int| 0 <= i < out@.len() && 0 <= k2 < remaining@.len() implies commit_le(
                certs@[out@[i] as int],
                certs@[remaining@[k2] as int],
            ) by {
                if i == out0.len() {
                    if k2 < m {
                        assert(commit_le(certs@[rem0[m as int] as int], certs@[rem0[k2] as int]));
                    } else {
                        assert(commit_le(certs@[rem0[m as int] as int], certs@[rem0[k2 + 1] as int]));
                    }
                } else {
                    assert(out@[i] == out0[i]);
                    if k2 < m {
                        assert(commit_le(certs@[out0[i] as int], certs@[rem0[k2] as int]));
                    } else {
                        assert(commit_le(certs@[out0[i] as int], certs@[rem0[k2 + 1] as int]));
                    }
                }
            }
            assert forall|i: int, j2: int| 0 <= i < j2 < out@.len() implies commit_le(certs@[out@[i] as int], certs@[out@[j2] as int]) by {
                if j2 == out0.len() {
                    assert(out@[i] == out0[i]);
                    assert(commit_le(certs@[out0[i] as int], certs@[rem0[m as int] as int]));
                } else {
                    assert(out@[i] == out0[i]);
                    assert(out@[j2] == out0[j2]);
                }
            }
            assert(seq_unique(out@)) by {
                assert forall|i: int, j2: int| 0 <= i < out@.len() && 0 <= j2 < out@.len() && i != j2 implies out@[i] != out@[j2] by {
                    if i == out0.len() {
                        assert(out0[j2] != rem0[m as int]);
                    } else if j2 == out0.len() {
                        assert(out0[i] != rem0[m as int]);
                    } else {
                        assert(out@[i] == out0[i] && out@[j2] == out0[j2]);
                    }
                }
            }
        }
    }
    out
}

/// `ids` appended to `acc`, each unless `acc` already holds it.
pub open spec fn append_new(acc: Seq<TransmissionId>, ids: Seq<TransmissionId>) -> Seq<TransmissionId>
    decreases ids.len(),
{
    if ids.len() == 0 {
        acc
    } else {
        append_new(if seq_contains(acc, ids[0]) { acc } else { acc.push(ids[0]) }, ids.drop_first())
    }
}

/// The transmissions of the first `n` certificates taken in `order`, in header
/// order, each once.
pub open spec fn collect_ids(certs: Seq<BatchCertificate>, order: Seq<usize>, n: nat) -> Seq<TransmissionId>
    decreases n,
{
    if n == 0 {
        Seq::empty()
    } else {
        append_new(collect_ids(certs, order, (n - 1) as nat), certs[order[n - 1] as int].header.transmission_ids@)
    }
}

/// Returns the transmissions that committing `certs` confirms: certificates in commit
/// order, each certificate's transmissions in header order, each transmission once.
/// Where no two certificates share a round and an author, the commit order is unique.
pub fn commit_transmission_ids(certs: &Vec<BatchCertificate>) -> (r: Vec<TransmissionId>)
    ensures
        exists|order: Seq<usize>| #[trigger] is_commit_order(certs@, order) && r@ == collect_ids(certs@, order, order.len()),
{
    let order = commit_order(certs);
    let mut out: Vec<TransmissionId> = Vec::new();
    let mut i: usize = 0;
    while i < order.len()
        invariant
            is_commit_order(certs@, order@),
            i <= order@.len(),
            out@ == collect_ids(certs@, order@, i as nat),
        decreases order.len() - i,
    {
        let ids = &certs[order[i]].header.transmission_ids;
        let ghost acc0 = out@;
        let mut k: usize = 0;
        assert(ids@.skip(0) =~= ids@);
        while k < ids.len()
            invariant
                k <= ids@.len(),
                append_new(acc0, ids@) == append_new(out@, ids@.skip(k as int)),
            decreases ids.len() - k,
        {
            let tid = ids[k];
            proof {
                assert(ids@.skip(k as int).drop_first() =~= ids@.skip(k + 1));
                assert(ids@.skip(k as int)[0] == tid);
            }
            if !vec_contains_id(&out, tid) {
                out.push(tid);
            }
            k = k + 1;
        }
        proof {
            assert(ids@.skip(ids@.len() as int).len() == 0);
        }
        i = i + 1;
    }
    out
}

} // verus!
