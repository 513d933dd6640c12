use vstd::prelude::*;

use crate::types::{seq_contains, vec_contains_u64};

verus! {

/// How many rounds back the committee that authorizes a round is taken from.
pub const COMMITTEE_LOOKBACK_RANGE: u64 = 100;

/// Why a committee could not be formed.
#[derive(Clone, Copy, Debug, PartialEq, Eq, Structural)]
pub enum CommitteeError {
    /// The committee has no members.
    Empty,
    /// An address occurs twice.
    DuplicateMember,
    /// The total stake does not fit in 64 bits.
    StakeOverflow,
}

/// The stake of the first `n` members.
pub open spec fn total_upto(m: Seq<(u64, u64)>, n: nat) -> int
    decreases n,
{
    if n == 0 {
        0
    } else {
        total_upto(m, (n - 1) as nat) + m[n - 1].1
    }
}

/// The stake of those among the first `n` members whose address is in `addrs`.
pub open spec fn stake_upto(m: Seq<(u64, u64)>, addrs: Seq<u64>, n: nat) -> int
    decreases n,
{
    if n == 0 {
        0
    } else {
        stake_upto(m, addrs, (n - 1) as nat) + if seq_contains(addrs, m[n - 1].0) {
            m[n - 1].1 as int
        } else {
            0
        }
    }
}

/// The total stake of a committee's members.
pub open spec fn total_stake(m: Seq<(u64, u64)>) -> int {
    total_upto(m, m.len())
}

/// The stake held by the members whose address is in `addrs`.
pub open spec fn stake_of(m: Seq<(u64, u64)>, addrs: Seq<u64>) -> int {
    stake_upto(m, addrs, m.len())
}

/// The stake needed for a quorum: more than two thirds of the total.
pub open spec fn quorum_threshold_of(total: int) -> int {
    total * 2 / 3 + 1
}

/// No address occurs twice among the members.
pub open spec fn members_unique(m: Seq<(u64, u64)>) -> bool {
    forall|i: int, j: int| 0 <= i < m.len() && 0 <= j < m.len() && i != j ==> m[i].0 != m[j].0
}

/// The first fault of a member list, in the order checked.
pub open spec fn committee_fault(m: Seq<(u64, u64)>) -> Option<CommitteeError> {
    if m.len() == 0 {
        Some(CommitteeError::Empty)
    } else if !members_unique(m) {
        Some(CommitteeError::DuplicateMember)
    } else if total_stake(m) > u64::MAX {
        Some(CommitteeError::StakeOverflow)
    } else {
        None
    }
}

/// The round whose committee authorizes `round`: the odd round before the latest
/// even round not above `round` (committees change on even rounds only), minus
/// `COMMITTEE_LOOKBACK_RANGE`, never below zero.
pub open spec fn lookback_round(round: u64) -> u64 {
    let previous = if round % 2 == 0 {
        if round >= 1 {
            (round - 1) as u64
        } else {
            0u64
        }
    } else {
        if round >= 2 {
            (round - 2) as u64
        } else {
            0u64
        }
    };
    if previous >= COMMITTEE_LOOKBACK_RANGE {
        (previous - COMMITTEE_LOOKBACK_RANGE) as u64
    } else {
        0u64
    }
}

/// Computes the committee lookback round for `round`.
pub fn committee_lookback_round(round: u64) -> (r: u64)
    ensures
        r == lookback_round(round),
{
    let previous = if round % 2 == 0 {
        round.saturating_sub(1)
    } else {
        round.saturating_sub(2)
    };
    previous.saturating_sub(COMMITTEE_LOOKBACK_RANGE)
}

proof fn lemma_stake_bounded(m: Seq<(u64, u64)>, addrs: Seq<u64>, n: nat)
    requires
        n <= m.len(),
    ensures
        0 <= stake_upto(m, addrs, n) <= total_upto(m, n),
        total_upto(m, n) >= 0,
    decreases n,
{
    if n > 0 {
        lemma_stake_bounded(m, addrs, (n - 1) as nat);
    }
}

proof fn lemma_total_monotone(m: Seq<(u64, u64)>, a: nat, b: nat)
    requires
        a <= b <= m.len(),
    ensures
        total_upto(m, a) <= total_upto(m, b),
    decreases b - a,
{
    if a < b {
        lemma_total_monotone(m, a, (b - 1) as nat);
    }
}

/// A committee: its identifier, the round from which it is in force, and its
/// members as (address, stake).
#[derive(Debug)]
pub struct Committee {
    id: u64,
    starting_round: u64,
    members: Vec<(u64, u64)>,
}

impl Committee {
    pub closed spec fn id_view(&self) -> u64 {
        self.id
    }

    pub closed spec fn starting_round_view(&self) -> u64 {
        self.starting_round
    }

    /// The members, as (address, stake), in committee order.
    pub closed spec fn members_view(&self) -> Seq<(u64, u64)> {
        self.members@
    }

    /// The committee is non-empty, has distinct addresses, and its stake fits in 64 bits.
    pub open spec fn wf(&self) -> bool {
        committee_fault(self.members_view()) is None
    }

    /// The stake needed for a quorum of this committee.
    pub open spec fn quorum_threshold_spec(&self) -> int {
        quorum_threshold_of(total_stake(self.members_view()))
    }

    /// Forms a committee and checks its members.
    pub fn new(id: u64, starting_round: u64, members: Vec<(u64, u64)>) -> (r: Result<
        Committee,
        CommitteeError,
    >)
        ensures
            match r {
                Ok(c) => committee_fault(members@) is None && c.wf() && c.id_view() == id
                    && c.starting_round_view() == starting_round && c.members_view() == members@,
                Err(e) => committee_fault(members@) == Some(e),
            },
    {
        match members_fault(&members) {
            Some(e) => Err(e),
            None => Ok(Committee { id, starting_round, members }),
        }
    }

    /// Returns `true` if the committee is well-formed.
    pub fn is_valid(&self) -> (r: bool)
        ensures
            r == self.wf(),
    {
        members_fault(&self.members).is_none()
    }

    /// Returns the committee identifier.
    pub fn id(&self) -> (r: u64)
        ensures
            r == self.id_view(),
    {
        self.id
    }

    /// Returns the round from which the committee is in force.
    pub fn starting_round(&self) -> (r: u64)
        ensures
            r == self.starting_round_view(),
    {
        self.starting_round
    }

    /// Returns the number of members.
    pub fn num_members(&self) -> (r: usize)
        ensures
            r == self.members_view().len(),
    {
        self.members.len()
    }

    /// Returns `true` if `address` is a member.
    pub fn is_committee_member(&self, address: u64) -> (r: bool)
        ensures
            r == exists|i: int| 0 <= i < self.members_view().len() && self.members_view()[i].0 == address,
    {
        let mut i: usize = 0;
        while i < self.members.len()
            invariant
                i <= self.members@.len(),
                forall|k: int| 0 <= k < i ==> self.members@[k].0 != address,
            decreases self.members.len() - i,
        {
            if self.members[i].0 == address {
                assert(self.members_view()[i as int].0 == address);
                return true;
            }
            i = i + 1;
        }
        false
    }

    /// Returns the total stake of the committee.
    pub fn total_stake(&self) -> (r: u64)
        requires
            self.wf(),
        ensures
            r == total_stake(self.members_view()),
    {
        let mut total: u64 = 0;
        let mut k: usize = 0;
        while k < self.members.len()
            invariant
                self.wf(),
                k <= self.members@.len(),
                total as int == total_upto(self.members@, k as nat),
            decreases self.members.len() - k,
        {
            proof {
                lemma_total_monotone(self.members@, (k + 1) as nat, self.members@.len());
            }
            total = total + self.members[k].1;
            k = k + 1;
        }
        total
    }

    /// Returns the stake needed for a quorum: more than two thirds of the total stake.
    pub fn quorum_threshold(&self) -> (r: u64)
        requires
            self.wf(),
        ensures
            r == self.quorum_threshold_spec(),
    {
        let total = self.total_stake();
        ((total as u128) * 2 / 3 + 1) as u64
    }

    /// Returns `true` if the members whose address is in `addresses` hold a quorum of stake.
    pub fn is_quorum_threshold_reached(&self, addresses: &Vec<u64>) -> (r: bool)
        requires
            self.wf(),
        ensures
            r == (stake_of(self.members_view(), addresses@) >= self.quorum_threshold_spec()),
    {
        let threshold = self.quorum_threshold();
        let mut stake: u64 = 0;
        let mut k: usize = 0;
        while k < self.members.len()
            invariant
                self.wf(),
                k <= self.members@.len(),
                stake as int == stake_upto(self.members@, addresses@, k as nat),
                threshold as int == self.quorum_threshold_spec(),
            decreases self.members.len() - k,
        {
            proof {
                lemma_stake_bounded(self.members@, addresses@, (k + 1) as nat);
                lemma_total_monotone(self.members@, (k + 1) as nat, self.members@.len());
            }
            if vec_contains_u64(addresses, self.members[k].0) {
                stake = stake + self.members[k].1;
            }
            k = k + 1;
        }
        stake >= threshold
    }

    /// Returns the leader of `round`: the members take turns, one per even round, in
    /// committee order. The result depends on the round and the committee alone.
    pub fn get_leader(&self, round: u64) -> (r: u64)
        requires
            self.wf(),
        ensures
            r == leader_of(self.members_view(), round),
    {
        let n = self.members.len() as u64;
        let idx = ((round / 2) % n) as usize;
        self.members[idx].0
    }
}

/// The leader of `round` among members `m`.
pub open spec fn leader_of(m: Seq<(u64, u64)>, round: u64) -> u64 {
    m[((round / 2) % (m.len() as u64)) as int].0
}

/// Returns the first fault of a member list, if any.
pub fn members_fault(members: &Vec<(u64, u64)>) -> (r: Option<CommitteeError>)
    ensures
        r == committee_fault(members@),
{
    if members.len() == 0 {
        return Some(CommitteeError::Empty);
    }
    let mut i: usize = 0;
    while i < members.len()
        invariant
            i <= members@.len(),
            forall|a: int, b: int| 0 <= a < i && 0 <= b < members@.len() && a != b ==> members@[a].0 != members@[b].0,
        decreases members.len() - i,
    {
        let mut j: usize = 0;
        while j < members.len()
            invariant
                i < members@.len(),
                j <= members@.len(),
                forall|b: int| 0 <= b < j && i != b ==> members@[i as int].0 != members@[b].0,
            decreases members.len() - j,
        {
            if j != i && members[j].0 == members[i].0 {
                return Some(CommitteeError::DuplicateMember);
            }
            j = j + 1;
        }
        i = i + 1;
    }
    let mut total: u64 = 0;
    let mut k: usize = 0;
    while k < members.len()
        invariant
            k <= members@.len(),
            members@.len() > 0,
            members_unique(members@),
            total as int == total_upto(members@, k as nat),
        decreases members.len() - k,
    {
        if total > u64::MAX - members[k].1 {
            proof {
                lemma_total_monotone(members@, (k + 1) as nat, members@.len());
            }
            return Some(CommitteeError::StakeOverflow);
        }
        total = total + members[k].1;
        k = k + 1;
    }
    None
}

} // verus!
