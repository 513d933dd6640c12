use vstd::prelude::*;

use crate::types::{seq_contains, vec_contains_u64, BatchCertificate};

verus! {

/// The certificates committed together by one block, with the position of the leader
/// certificate at the anchor round.
#[derive(Debug)]
pub struct Subdag {
    pub certificates: Vec<BatchCertificate>,
    pub leader: usize,
}

impl Subdag {
    /// The leader is one of the certificates.
    pub open spec fn wf(&self) -> bool {
        self.leader < self.certificates@.len()
    }

    /// The anchor round: the round of the leader certificate.
    pub open spec fn anchor_round_spec(&self) -> u64 {
        self.certificates@[self.leader as int].header.round
    }

    /// Returns the anchor round.
    pub fn anchor_round(&self) -> (r: u64)
        requires
            self.wf(),
        ensures
            r == self.anchor_round_spec(),
    {
        self.certificates[self.leader].header.round
    }
}

/// `x` is one of the positions in `s`.
pub open spec fn position_in(s: Seq<usize>, x: int) -> bool {
    exists|i: int| 0 <= i < s.len() && s[i] as int == x
}

/// Some certificate of the subdag is in `round`.
pub open spec fn has_round(certs: Seq<BatchCertificate>, round: u64) -> bool {
    exists|i: int| 0 <= i < certs.len() && #[trigger] certs[i].header.round == round
}

/// Every round from `lo` up to, not including, `hi` has a certificate.
pub open spec fn rounds_present(certs: Seq<BatchCertificate>, lo: u64, hi: u64) -> bool {
    forall|r: u64| lo <= r < hi ==> #[trigger] has_round(certs, r)
}

/// One step down: the certificates of `round` that some certificate of `frontier`
/// names as a previous certificate.
pub open spec fn step_down(certs: Seq<BatchCertificate>, frontier: Set<int>, round: u64) -> Set<int> {
    Set::new(
        |p: int|
            0 <= p < certs.len() && certs[p].header.round == round && exists|c: int|
                #![trigger frontier.contains(c)]
                frontier.contains(c) && 0 <= c < certs.len() && seq_contains(
                    certs[c].header.previous_certificate_ids@,
                    certs[p].certificate_id,
                ),
    )
}

/// The certificates reached from position `start` (at round `top`) after `k` steps down.
pub open spec fn frontier(certs: Seq<BatchCertificate>, start: int, top: u64, k: nat) -> Set<int>
    decreases k,
{
    if k == 0 {
        set![start]
    } else {
        step_down(certs, frontier(certs, start, top, (k - 1) as nat), (top - k) as u64)
    }
}

/// The number of rounds from the certificate at `prev` up to the one at `cur`.
pub open spec fn round_gap(certs: Seq<BatchCertificate>, prev: int, cur: int) -> nat {
    if certs[cur].header.round > certs[prev].header.round {
        (certs[cur].header.round - certs[prev].header.round) as nat
    } else {
        0
    }
}

/// There is a causal path from the certificate at `cur` down to the one at `prev`.
pub open spec fn linked(certs: Seq<BatchCertificate>, prev: int, cur: int) -> bool {
    frontier(certs, cur, certs[cur].header.round, round_gap(certs, prev, cur)).contains(prev)
}

/// Returns `true` if some certificate at a position in `traversal` names `id` as a
/// previous certificate.
fn names_previous(certs: &Vec<BatchCertificate>, traversal: &Vec<usize>, id: u64) -> (r: bool)
    requires
        forall|i: int| 0 <= i < traversal@.len() ==> traversal@[i] < certs@.len(),
    ensures
        r == exists|c: int| position_in(traversal@, c) && 0 <= c < certs@.len() && seq_contains(
            certs@[c].header.previous_certificate_ids@,
            id,
        ),
{
    let mut i: usize = 0;
    while i < traversal.len()
        invariant
            forall|j: int| 0 <= j < traversal@.len() ==> traversal@[j] < certs@.len(),
            i <= traversal@.len(),
            forall|j: int| 0 <= j < i ==> !seq_contains(
                certs@[traversal@[j] as int].header.previous_certificate_ids@,
                id,
            ),
        decreases traversal.len() - i,
    {
        let c = traversal[i];
        if vec_contains_u64(&certs[c].header.previous_certificate_ids, id) {
            assert(position_in(traversal@, c as int));
            return true;
        }
        i = i + 1;
    }
    proof {
        assert forall|c: int| position_in(traversal@, c) && 0 <= c < certs@.len() implies !seq_contains(
            certs@[c].header.previous_certificate_ids@,
            id,
        ) by {
            let j = choose|j: int| 0 <= j < traversal@.len() && traversal@[j] as int == c;
        }
    }
    false
}

/// Returns whether there is a causal path from the certificate at `cur` down to the
/// one at `prev`, following previous-certificate identifiers one round at a time. Fails
/// if a round between them has no certificate in the subdag.
pub fn is_linked(certs: &Vec<BatchCertificate>, prev: usize, cur: usize) -> (r: Result<bool, ()>)
    requires
        prev < certs@.len(),
        cur < certs@.len(),
    ensures
        match r {
            Ok(b) => rounds_present(certs@, certs@[prev as int].header.round, certs@[cur as int].header.round)
                && b == linked(certs@, prev as int, cur as int),
            Err(()) => !rounds_present(certs@, certs@[prev as int].header.round, certs@[cur as int].header.round),
        },
{
    let top = certs[cur].header.round;
    let bottom = certs[prev].header.round;
    let gap: u64 = if top > bottom {
        top - bottom
    } else {
        0
    };
    let mut traversal: Vec<usize> = Vec::new();
    traversal.push(cur);
    proof {
        assert forall|x: int| position_in(traversal@, x) <==> frontier(certs@, cur as int, top, 0).contains(x) by {
            if x == cur as int {
                assert(traversal@[0] as int == x);
            }
        }
    }
    let mut k: u64 = 0;
    while k < gap
        invariant
            top == certs@[cur as int].header.round,
            bottom == certs@[prev as int].header.round,
            gap as nat == round_gap(certs@, prev as int, cur as int),
            k <= gap,
            forall|i: int| 0 <= i < traversal@.len() ==> traversal@[i] < certs@.len(),
            forall|x: int| position_in(traversal@, x) <==> frontier(certs@, cur as int, top, k as nat).contains(x),
            forall|r: u64| top - k <= r < top ==> #[trigger] has_round(certs@, r),
        decreases gap - k,
    {
        let round = top - (k + 1);
        let ghost old_front = frontier(certs@, cur as int, top, k as nat);
        let mut next: Vec<usize> = Vec::new();
        let mut found = false;
        let mut p: usize = 0;
        while p < certs.len()
            invariant
                forall|i: int| 0 <= i < traversal@.len() ==> traversal@[i] < certs@.len(),
                forall|x: int| position_in(traversal@, x) <==> old_front.contains(x),
                p <= certs@.len(),
                forall|i: int| 0 <= i < next@.len() ==> next@[i] < p,
                forall|x: int| position_in(next@, x) <==> (0 <= x < p && step_down(certs@, old_front, round).contains(x)),
                found <==> exists|i: int| 0 <= i < p && #[trigger] certs@[i].header.round == round,
            decreases certs.len() - p,
        {
            let ghost before = next@;
            let ghost sd = step_down(certs@, old_front, round);
            if certs[p].header.round == round {
                found = true;
                let named = names_previous(certs, &traversal, certs[p].certificate_id);
                proof {
                    if named {
                        let c = choose|c: int| position_in(traversal@, c) && 0 <= c < certs@.len() && seq_contains(
                            certs@[c].header.previous_certificate_ids@,
                            certs@[p as int].certificate_id,
                        );
                        assert(old_front.contains(c));
                        assert(sd.contains(p as int));
                    } else {
                        if sd.contains(p as int) {
                            let c = choose|c: int| #![trigger old_front.contains(c)] old_front.contains(c) && 0 <= c < certs@.len()
                                && seq_contains(certs@[c].header.previous_certificate_ids@, certs@[p as int].certificate_id);
                            assert(position_in(traversal@, c));
                        }
                        assert(!sd.contains(p as int));
                    }
                }
                if named {
                    next.push(p);
                }
            } else {
                assert(!sd.contains(p as int));
            }
            proof {
                assert forall|x: int| position_in(next@, x) <==> (0 <= x < p + 1 && sd.contains(x)) by {
                    if position_in(next@, x) {
                        let i = choose|i: int| 0 <= i < next@.len() && next@[i] as int == x;
                        if i < before.len() {
                            assert(before[i] as int == x);
                            assert(position_in(before, x));
                        } else {
                            assert(x == p as int);
                        }
                    }
                    if 0 <= x < p && sd.contains(x) {
                        assert(position_in(before, x));
                        let i = choose|i: int| 0 <= i < before.len() && before[i] as int == x;
                        assert(next@[i] as int == x);
                    }
                    if x == p as int && sd.contains(x) {
                        assert(next@[next@.len() - 1] as int == x);
                    }
                }
            }
            p = p + 1;
        }
        if !found {
            proof {
                assert(!has_round(certs@, round));
            }
            return Err(());
        }
        traversal = next;
        k = k + 1;
        proof {
            assert(frontier(certs@, cur as int, top, k as nat) == step_down(certs@, old_front, (top - k) as u64));
            assert forall|r: u64| top - k <= r < top implies #[trigger] has_round(certs@, r) by {
                if r == round {
                    let i = choose|i: int| 0 <= i < certs@.len() && #[trigger] certs@[i].header.round == round;
                }
            }
        }
    }
    let mut i: usize = 0;
    while i < traversal.len()
        invariant
            top == certs@[cur as int].header.round,
            bottom == certs@[prev as int].header.round,
            gap as nat == round_gap(certs@, prev as int, cur as int),
            forall|x: int| position_in(traversal@, x) <==> frontier(certs@, cur as int, top, gap as nat).contains(x),
            forall|r: u64| top - gap <= r < top ==> #[trigger] has_round(certs@, r),
            i <= traversal@.len(),
            forall|j: int| 0 <= j < i ==> traversal@[j] != prev,
        decreases traversal.len() - i,
    {
        if traversal[i] == prev {
            assert(position_in(traversal@, prev as int));
            return Ok(true);
        }
        i = i + 1;
    }
    proof {
        if position_in(traversal@, prev as int) {
            let j = choose|j: int| 0 <= j < traversal@.len() && traversal@[j] as int == prev as int;
        }
    }
    Ok(false)
}

/// Returns the position of the first certificate of `round` authored by `author`.
pub fn find_certificate_from(certs: &Vec<BatchCertificate>, round: u64, author: u64) -> (r: Option<usize>)
    ensures
        r == first_from(certs@, round, author),
        r matches Some(i) ==> i < certs@.len(),
{
    let mut i: usize = 0;
    while i < certs.len()
        invariant
            i <= certs@.len(),
            first_from(certs@, round, author) == first_from_at(certs@, round, author, i as nat),
        decreases certs.len() - i,
    {
        if certs[i].header.round == round && certs[i].header.author == author {
            return Some(i);
        }
        i = i + 1;
    }
    None
}

/// The position of the first certificate of `round` by `author`, from position `i` on.
pub open spec fn first_from_at(certs: Seq<BatchCertificate>, round: u64, author: u64, i: nat) -> Option<usize>
    decreases certs.len() - i,
{
    if i >= certs.len() {
        None
    } else if certs[i as int].header.round == round && certs[i as int].header.author == author {
        Some(i as usize)
    } else {
        first_from_at(certs, round, author, i + 1)
    }
}

/// The position of the first certificate of `round` by `author`.
pub open spec fn first_from(certs: Seq<BatchCertificate>, round: u64, author: u64) -> Option<usize> {
    first_from_at(certs, round, author, 0)
}

} // verus!
