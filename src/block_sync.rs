use vstd::prelude::*;

use indexmap::IndexMap;

use crate::assoc::{assoc, has_key, keys_unique, lemma_assoc_at, lemma_assoc_push, lemma_assoc_remove, lemma_assoc_update};

verus! {

/// The number of most recent block heights that a set of locators lists one by one.
pub const NUM_RECENT_BLOCKS: usize = 100;

/// The spacing, in blocks, between two checkpoints of a set of locators.
pub const CHECKPOINT_INTERVAL: u32 = 10000;

/// The maximum number of blocks tolerated before the node is considered behind its peers.
pub const MAX_BLOCKS_BEHIND: u32 = 1;

/// A peer's network address: an IPv4 address as a big-endian integer, and a port.
#[derive(Clone, Copy, Debug, PartialEq, Eq, Structural, Hash)]
pub struct PeerAddr {
    pub ip: u32,
    pub port: u16,
}

/// The IPv4 loopback address, 127.0.0.1.
pub const LOCALHOST_V4: u32 = 0x7f000001;

/// The address that stands for this node itself (127.0.0.1, port 0). It is
/// distinct from every address a connection can have.
pub fn dummy_self_ip() -> (r: PeerAddr)
    ensures
        r == (PeerAddr { ip: LOCALHOST_V4, port: 0 }),
{
    PeerAddr { ip: LOCALHOST_V4, port: 0 }
}

/// An ordered pair of peers, the key of the common-ancestor table.
#[derive(Clone, Copy, Debug, PartialEq, Eq, Structural, Hash)]
pub struct PeerPair(pub PeerAddr, pub PeerAddr);

#[derive(Clone, Copy, Debug, PartialEq, Eq, Structural, Hash)]
pub enum BlockSyncMode {
    Router,
    Gateway,
}

impl BlockSyncMode {
    /// Returns `true` if the node is in router mode.
    pub fn is_router(&self) -> (r: bool)
        ensures
            r == (*self == BlockSyncMode::Router),
    {
        matches!(self, BlockSyncMode::Router)
    }

    /// Returns `true` if the node is in gateway mode.
    pub fn is_gateway(&self) -> (r: bool)
        ensures
            r == (*self == BlockSyncMode::Gateway),
    {
        matches!(self, BlockSyncMode::Gateway)
    }
}

/// Why a set of block locators was refused.
#[derive(Clone, Copy, Debug, PartialEq, Eq, Structural)]
pub enum LocatorError {
    /// The recent entries are empty, too many, or not consecutive heights.
    InvalidRecents,
    /// The checkpoints are empty, not at multiples of the interval from zero,
    /// or do not end at the last multiple below the latest recent height.
    InvalidCheckpoints,
    /// A checkpoint and a recent entry give two hashes for one height.
    InconsistentHashes,
}

/// The recent entries: between one and `NUM_RECENT_BLOCKS` consecutive heights.
pub open spec fn recents_valid(r: Seq<(u32, u64)>) -> bool {
    &&& 0 < r.len() <= NUM_RECENT_BLOCKS
    &&& forall|i: int| 0 <= i < r.len() ==> #[trigger] r[i].0 as int == r[0].0 as int + i
}

/// The checkpoints: heights `0, CHECKPOINT_INTERVAL, 2 * CHECKPOINT_INTERVAL, ...`, ending
/// at the greatest multiple of the interval not above the latest recent height.
pub open spec fn checkpoints_valid(c: Seq<(u32, u64)>, latest: u32) -> bool {
    &&& 0 < c.len()
    &&& forall|i: int| 0 <= i < c.len() ==> #[trigger] c[i].0 as int == i * CHECKPOINT_INTERVAL
    &&& c[c.len() - 1].0 <= latest
    &&& latest < c[c.len() - 1].0 + CHECKPOINT_INTERVAL
}

/// Where a checkpoint and a recent entry share a height, they share the hash.
pub open spec fn hashes_consistent(r: Seq<(u32, u64)>, c: Seq<(u32, u64)>) -> bool {
    forall|i: int, j: int|
        0 <= i < c.len() && 0 <= j < r.len() && #[trigger] c[i].0 == #[trigger] r[j].0 ==> c[i].1
            == r[j].1
}

/// The first structural fault of a pair (recents, checkpoints), in the order checked.
pub open spec fn locator_fault(r: Seq<(u32, u64)>, c: Seq<(u32, u64)>) -> Option<LocatorError> {
    if !recents_valid(r) {
        Some(LocatorError::InvalidRecents)
    } else if !checkpoints_valid(c, r[r.len() - 1].0) {
        Some(LocatorError::InvalidCheckpoints)
    } else if !hashes_consistent(r, c) {
        Some(LocatorError::InconsistentHashes)
    } else {
        None
    }
}

/// The hash listed for height `h` in a sequence of (height, hash) entries: the first match.
pub open spec fn lookup_hash(s: Seq<(u32, u64)>, h: u32) -> Option<u64>
    decreases s.len(),
{
    if s.len() == 0 {
        None
    } else if s[0].0 == h {
        Some(s[0].1)
    } else {
        lookup_hash(s.drop_first(), h)
    }
}

/// The entries of a set of locators in ascending height: the checkpoints below the
/// first recent height, then the recent entries.
pub open spec fn merged_entries(r: Seq<(u32, u64)>, c: Seq<(u32, u64)>) -> Seq<(u32, u64)> {
    c.filter(|e: (u32, u64)| e.0 < r[0].0) + r
}

/// Upward scan for a common ancestor over the first `n` entries. `refs[i]` is the
/// other side's hash at the height of `entries[i]`, if it has one. Returns whether
/// a fork was met, and the last height at which both sides agreed.
pub open spec fn ancestor_scan(entries: Seq<(u32, u64)>, refs: Seq<Option<u64>>, n: nat) -> (
    bool,
    u32,
)
    decreases n,
{
    if n == 0 {
        (false, 0u32)
    } else {
        let prev = ancestor_scan(entries, refs, (n - 1) as nat);
        if prev.0 {
            prev
        } else {
            match refs[n - 1] {
                None => prev,
                Some(y) => if y == entries[n - 1].1 {
                    (false, entries[n - 1].0)
                } else {
                    (true, prev.1)
                },
            }
        }
    }
}

/// The common ancestor: the height of the last agreeing entry before the first fork.
pub open spec fn common_ancestor_of(entries: Seq<(u32, u64)>, refs: Seq<Option<u64>>) -> u32 {
    ancestor_scan(entries, refs, entries.len()).1
}

/// The hash of the canonical chain at height `h`, if the chain reaches it.
pub open spec fn canon_hash(canon: Seq<u64>, h: u32) -> Option<u64> {
    if (h as int) < canon.len() {
        Some(canon[h as int])
    } else {
        None
    }
}

/// For each entry, the canonical hash at its height.
pub open spec fn canon_refs(entries: Seq<(u32, u64)>, canon: Seq<u64>) -> Seq<Option<u64>> {
    Seq::new(entries.len(), |i: int| canon_hash(canon, entries[i].0))
}

/// For each entry, the hash that the other entries list at its height.
pub open spec fn peer_refs(entries: Seq<(u32, u64)>, other: Seq<(u32, u64)>) -> Seq<
    Option<u64>,
> {
    Seq::new(entries.len(), |i: int| lookup_hash(other, entries[i].0))
}

proof fn lemma_scan_stays_stopped(entries: Seq<(u32, u64)>, refs: Seq<Option<u64>>, i: nat, n: nat)
    requires
        i <= n,
        ancestor_scan(entries, refs, i).0,
    ensures
        ancestor_scan(entries, refs, n) == ancestor_scan(entries, refs, i),
    decreases n - i,
{
    if i < n {
        lemma_scan_stays_stopped(entries, refs, i, (n - 1) as nat);
    }
}

proof fn lemma_scan_agreeing_prefix(entries: Seq<(u32, u64)>, refs: Seq<Option<u64>>, n: nat)
    requires
        n <= entries.len(),
        n <= refs.len(),
        forall|k: int| 0 <= k < n ==> refs[k] is None || refs[k] == Some(#[trigger] entries[k].1),
    ensures
        !ancestor_scan(entries, refs, n).0,
    decreases n,
{
    if n > 0 {
        lemma_scan_agreeing_prefix(entries, refs, (n - 1) as nat);
    }
}

/// Two chains that agree on every shared entry up to the one at height `entries[p].0`,
/// share that entry, and list different hashes at the next entry, have exactly that
/// height as their common ancestor.
pub proof fn lemma_common_ancestor_at_divergence(
    entries: Seq<(u32, u64)>,
    refs: Seq<Option<u64>>,
    p: int,
)
    requires
        refs.len() == entries.len(),
        0 <= p,
        p + 1 < entries.len(),
        forall|k: int| 0 <= k <= p ==> refs[k] is None || refs[k] == Some(#[trigger] entries[k].1),
        refs[p] == Some(entries[p].1),
        refs[p + 1] is Some,
        refs[p + 1] != Some(entries[p + 1].1),
    ensures
        common_ancestor_of(entries, refs) == entries[p].0,
{
    lemma_scan_agreeing_prefix(entries, refs, p as nat);
    assert(ancestor_scan(entries, refs, (p + 1) as nat) == (false, entries[p].0));
    assert(ancestor_scan(entries, refs, (p + 2) as nat).0);
    lemma_scan_stays_stopped(entries, refs, (p + 2) as nat, entries.len());
}

/// Scans `entries` upwards against the other side's hashes `refs` and returns the
/// common ancestor. It stops at the first fork: a chain that forks and later rejoins
/// gets no credit for the heights after the fork.
fn scan_common_ancestor(entries: &Vec<(u32, u64)>, refs: &Vec<Option<u64>>) -> (r: u32)
    requires
        refs.len() == entries.len(),
    ensures
        r == common_ancestor_of(entries@, refs@),
{
    let mut ancestor: u32 = 0;
    let mut forked = false;
    let mut i: usize = 0;
    while i < entries.len() && !forked
        invariant
            refs.len() == entries.len(),
            i <= entries.len(),
            (forked, ancestor) == ancestor_scan(entries@, refs@, i as nat),
            forked ==> ancestor_scan(entries@, refs@, entries@.len()) == ancestor_scan(
                entries@,
                refs@,
                i as nat,
            ),
        decreases entries.len() - i,
    {
        let (height, hash) = entries[i];
        match refs[i] {
            Some(expected) => {
                if expected == hash {
                    ancestor = height;
                } else {
                    forked = true;
                }
            },
            None => {},
        }
        i = i + 1;
        proof {
            if forked {
                lemma_scan_stays_stopped(entries@, refs@, i as nat, entries@.len());
            }
        }
    }
    ancestor
}

/// Returns the hash listed at height `h` in `s`, the first match.
fn find_hash(s: &Vec<(u32, u64)>, h: u32) -> (r: Option<u64>)
    ensures
        r == lookup_hash(s@, h),
{
    let mut i: usize = 0;
    assert(s@.subrange(0, s@.len() as int) =~= s@);
    while i < s.len()
        invariant
            i <= s.len(),
            lookup_hash(s@, h) == lookup_hash(s@.subrange(i as int, s@.len() as int), h),
        decreases s.len() - i,
    {
        let ghost rest = s@.subrange(i as int, s@.len() as int);
        assert(rest.drop_first() =~= s@.subrange(i + 1, s@.len() as int));
        if s[i].0 == h {
            return Some(s[i].1);
        }
        i = i + 1;
    }
    None
}

/// The block locators of one node: the hashes of its most recent blocks, one by one,
/// and of its checkpoint blocks, spaced by `CHECKPOINT_INTERVAL`.
#[derive(Debug)]
pub struct BlockLocators {
    recents: Vec<(u32, u64)>,
    checkpoints: Vec<(u32, u64)>,
}

impl BlockLocators {
    /// The recent entries, as (height, hash).
    pub closed spec fn recents_view(&self) -> Seq<(u32, u64)> {
        self.recents@
    }

    /// The checkpoints, as (height, hash).
    pub closed spec fn checkpoints_view(&self) -> Seq<(u32, u64)> {
        self.checkpoints@
    }

    /// The locators are well-formed.
    pub open spec fn valid(&self) -> bool {
        locator_fault(self.recents_view(), self.checkpoints_view()) is None
    }

    /// All entries in ascending height.
    pub open spec fn entries_view(&self) -> Seq<(u32, u64)> {
        merged_entries(self.recents_view(), self.checkpoints_view())
    }

    /// Builds block locators from the recent entries and the checkpoints, and checks
    /// that they are well-formed.
    pub fn new(recents: Vec<(u32, u64)>, checkpoints: Vec<(u32, u64)>) -> (r: Result<
        BlockLocators,
        LocatorError,
    >)
        ensures
            match r {
                Ok(l) => locator_fault(recents@, checkpoints@) is None && l.recents_view()
                    == recents@ && l.checkpoints_view() == checkpoints@,
                Err(e) => locator_fault(recents@, checkpoints@) == Some(e),
            },
    {
        let l = BlockLocators { recents, checkpoints };
        match l.ensure_is_valid() {
            Ok(()) => Ok(l),
            Err(e) => Err(e),
        }
    }

    /// Checks that the locators are well-formed, and returns the first fault if not.
    pub fn ensure_is_valid(&self) -> (r: Result<(), LocatorError>)
        ensures
            match r {
                Ok(()) => self.valid(),
                Err(e) => locator_fault(self.recents_view(), self.checkpoints_view()) == Some(e),
            },
    {
        let rec = &self.recents;
        let cps = &self.checkpoints;
        // The recent entries.
        if rec.len() == 0 || rec.len() > NUM_RECENT_BLOCKS {
            return Err(LocatorError::InvalidRecents);
        }
        let first = rec[0].0;
        let mut i: usize = 1;
        while i < rec.len()
            invariant
                rec@ == self.recents_view(),
                0 < rec.len() <= NUM_RECENT_BLOCKS,
                1 <= i <= rec.len(),
                first == rec@[0].0,
                forall|k: int| 0 <= k < i ==> #[trigger] rec@[k].0 as int == first as int + k,
            decreases rec.len() - i,
        {
            if rec[i - 1].0 == u32::MAX || rec[i].0 != rec[i - 1].0 + 1 {
                assert(rec@[i as int].0 as int != rec@[0].0 as int + i);
                return Err(LocatorError::InvalidRecents);
            }
            i = i + 1;
        }
        assert(recents_valid(rec@));
        let latest = rec[rec.len() - 1].0;
        // The checkpoints.
        if cps.len() == 0 || cps[0].0 != 0 {
            return Err(LocatorError::InvalidCheckpoints);
        }
        let mut j: usize = 1;
        while j < cps.len()
            invariant
                rec@ == self.recents_view(),
                cps@ == self.checkpoints_view(),
                recents_valid(rec@),
                latest == rec@[rec@.len() - 1].0,
                0 < cps.len(),
                1 <= j <= cps.len(),
                forall|k: int| 0 <= k < j ==> #[trigger] cps@[k].0 as int == k * CHECKPOINT_INTERVAL,
            decreases cps.len() - j,
        {
            if cps[j - 1].0 > u32::MAX - CHECKPOINT_INTERVAL || cps[j].0 != cps[j - 1].0
                + CHECKPOINT_INTERVAL {
                assert(cps@[j as int].0 as int != j * CHECKPOINT_INTERVAL);
                return Err(LocatorError::InvalidCheckpoints);
            }
            j = j + 1;
        }
        let last = cps[cps.len() - 1].0;
        if last > latest || latest - last >= CHECKPOINT_INTERVAL {
            return Err(LocatorError::InvalidCheckpoints);
        }
        assert(checkpoints_valid(cps@, latest));
        // A checkpoint inside the range of the recent entries must agree with them.
        let mut k: usize = 0;
        while k < cps.len()
            invariant
                rec@ == self.recents_view(),
                cps@ == self.checkpoints_view(),
                checkpoints_valid(cps@, latest),
                recents_valid(rec@),
                first == rec@[0].0,
                latest == rec@[rec@.len() - 1].0,
                k <= cps.len(),
                forall|a: int, b: int|
                    0 <= a < k && 0 <= b < rec@.len() && #[trigger] cps@[a].0 == #[trigger] rec@[b].0
                        ==> cps@[a].1 == rec@[b].1,
            decreases cps.len() - k,
        {
            let (height, hash) = cps[k];
            if first <= height && height <= latest {
                let idx = (height - first) as usize;
                assert(rec@[idx as int].0 == height);
                if rec[idx].1 != hash {
                    return Err(LocatorError::InconsistentHashes);
                }
                assert forall|b: int| 0 <= b < rec@.len() && rec@[b].0 == height implies rec@[b].1
                    == hash by {
                    assert(rec@[b].0 as int == first as int + b);
                }
            } else {
                assert forall|b: int| 0 <= b < rec@.len() implies rec@[b].0 != height by {
                    assert(rec@[b].0 as int == first as int + b);
                    assert(rec@[rec@.len() - 1].0 as int == first as int + rec@.len() - 1);
                }
            }
            k = k + 1;
        }
        Ok(())
    }

    /// Returns the latest height that the locators list.
    pub fn latest_locator_height(&self) -> (r: u32)
        requires
            self.valid(),
        ensures
            r == self.recents_view()[self.recents_view().len() - 1].0,
    {
        self.recents[self.recents.len() - 1].0
    }

    /// Returns the hash listed for the given height, if any.
    pub fn get_hash(&self, height: u32) -> (r: Option<u64>)
        requires
            self.valid(),
        ensures
            r == lookup_hash(self.entries_view(), height),
    {
        let entries = self.entries();
        find_hash(&entries, height)
    }

    /// Returns all entries in ascending height: the checkpoints below the first
    /// recent height, then the recent entries.
    pub fn entries(&self) -> (r: Vec<(u32, u64)>)
        requires
            self.recents_view().len() > 0,
        ensures
            r@ == self.entries_view(),
    {
        let mut out: Vec<(u32, u64)> = Vec::new();
        let first: u32 = self.recents[0].0;
        let ghost pred = |e: (u32, u64)| e.0 < first;
        let mut i: usize = 0;
        while i < self.checkpoints.len()
            invariant
                i <= self.checkpoints@.len(),
                self.recents@.len() > 0,
                first == self.recents@[0].0,
                pred == (|e: (u32, u64)| e.0 < first),
                out@ == self.checkpoints@.subrange(0, i as int).filter(pred),
            decreases self.checkpoints.len() - i,
        {
            let e = self.checkpoints[i];
            proof {
                reveal(Seq::filter);
                assert(self.checkpoints@.subrange(0, i + 1).drop_last() =~= self.checkpoints@.subrange(
                    0,
                    i as int,
                ));
            }
            if e.0 < first {
                out.push(e);
            }
            i = i + 1;
        }
        assert(self.checkpoints@.subrange(0, self.checkpoints@.len() as int)
            =~= self.checkpoints@);
        let ghost base = out@;
        let mut j: usize = 0;
        while j < self.recents.len()
            invariant
                j <= self.recents@.len(),
                out@ == base + self.recents@.subrange(0, j as int),
            decreases self.recents.len() - j,
        {
            out.push(self.recents[j]);
            j = j + 1;
            assert(out@ =~= base + self.recents@.subrange(0, j as int));
        }
        assert(self.recents@.subrange(0, self.recents@.len() as int) =~= self.recents@);
        out
    }
}

impl BlockLocators {
    /// Returns `true` if both hold the same entries.
    pub fn same_as(&self, other: &BlockLocators) -> (r: bool)
        ensures
            r == (self.recents_view() == other.recents_view() && self.checkpoints_view()
                == other.checkpoints_view()),
    {
        same_entries(&self.recents, &other.recents) && same_entries(
            &self.checkpoints,
            &other.checkpoints,
        )
    }

    /// Returns a copy with the same entries.
    pub fn duplicate(&self) -> (r: BlockLocators)
        ensures
            r.recents_view() == self.recents_view(),
            r.checkpoints_view() == self.checkpoints_view(),
    {
        BlockLocators { recents: copy_entries(&self.recents), checkpoints: copy_entries(&self.checkpoints) }
    }
}

fn same_entries(a: &Vec<(u32, u64)>, b: &Vec<(u32, u64)>) -> (r: bool)
    ensures
        r == (a@ == b@),
{
    if a.len() != b.len() {
        return false;
    }
    let mut i: usize = 0;
    while i < a.len()
        invariant
            a.len() == b.len(),
            i <= a.len(),
            forall|k: int| 0 <= k < i ==> a@[k] == b@[k],
        decreases a.len() - i,
    {
        if a[i].0 != b[i].0 || a[i].1 != b[i].1 {
            return false;
        }
        i = i + 1;
    }
    assert(a@ =~= b@);
    true
}

fn copy_entries(a: &Vec<(u32, u64)>) -> (r: Vec<(u32, u64)>)
    ensures
        r@ == a@,
{
    let mut out: Vec<(u32, u64)> = Vec::new();
    let mut i: usize = 0;
    while i < a.len()
        invariant
            i <= a.len(),
            out@ == a@.subrange(0, i as int),
        decreases a.len() - i,
    {
        out.push(a[i]);
        i = i + 1;
        assert(out@ =~= a@.subrange(0, i as int));
    }
    assert(a@.subrange(0, a@.len() as int) =~= a@);
    out
}

/// Builds the block locators of a canonical chain whose block hashes, by height,
/// are `canon`: the last `NUM_RECENT_BLOCKS` heights one by one, and every
/// `CHECKPOINT_INTERVAL`-th height from zero.
pub fn block_locators_of(canon: &Vec<u64>) -> (r: BlockLocators)
    requires
        0 < canon.len() <= u32::MAX,
    ensures
        r.valid(),
        r.recents_view() == recents_of_chain(canon@),
        r.checkpoints_view() == checkpoints_of_chain(canon@),
{
    let latest: u32 = (canon.len() - 1) as u32;
    let start: u32 = if latest >= (NUM_RECENT_BLOCKS - 1) as u32 {
        latest - (NUM_RECENT_BLOCKS - 1) as u32
    } else {
        0
    };
    let ghost rfn = |i: int| ((start + i) as u32, canon@[start + i]);
    let count: u32 = latest - start + 1;
    let mut recents: Vec<(u32, u64)> = Vec::new();
    let mut k: u32 = 0;
    while k < count
        invariant
            latest as int == canon.len() - 1,
            start as int == recents_start(canon@.len() as int),
            count == latest - start + 1,
            k <= count,
            rfn == (|i: int| ((start + i) as u32, canon@[start + i])),
            recents@ == Seq::new(k as nat, rfn),
        decreases count - k,
    {
        recents.push((start + k, canon[(start + k) as usize]));
        k = k + 1;
        assert(recents@ =~= Seq::new(k as nat, rfn));
    }
    let ghost cfn = |i: int| ((i * CHECKPOINT_INTERVAL) as u32, canon@[i * CHECKPOINT_INTERVAL]);
    let num_checkpoints: u32 = latest / CHECKPOINT_INTERVAL + 1;
    let mut checkpoints: Vec<(u32, u64)> = Vec::new();
    let mut c: u32 = 0;
    let mut n: u32 = 0;
    while n < num_checkpoints
        invariant
            latest as int == canon.len() - 1,
            num_checkpoints == latest / CHECKPOINT_INTERVAL + 1,
            n <= num_checkpoints,
            n < num_checkpoints ==> c as int == n * CHECKPOINT_INTERVAL,
            cfn == (|i: int| ((i * CHECKPOINT_INTERVAL) as u32, canon@[i * CHECKPOINT_INTERVAL])),
            checkpoints@ == Seq::new(n as nat, cfn),
        decreases num_checkpoints - n,
    {
        assert(n as int * CHECKPOINT_INTERVAL <= latest as int) by (nonlinear_arith)
            requires
                n as int <= latest as int / 10000,
                CHECKPOINT_INTERVAL == 10000,
        ;
        checkpoints.push((c, canon[c as usize]));
        n = n + 1;
        assert(checkpoints@ =~= Seq::new(n as nat, cfn));
        if n < num_checkpoints {
            assert(n as int * CHECKPOINT_INTERVAL <= latest as int) by (nonlinear_arith)
                requires
                    n as int <= latest as int / 10000,
                    CHECKPOINT_INTERVAL == 10000,
            ;
            c = c + CHECKPOINT_INTERVAL;
        }
    }
    let r = BlockLocators { recents, checkpoints };
    proof {
        let rs = r.recents@;
        let cs = r.checkpoints@;
        assert(recents_valid(rs));
        assert forall|i: int| 0 <= i < cs.len() implies #[trigger] cs[i].0 as int == i * CHECKPOINT_INTERVAL by {
            assert(i * CHECKPOINT_INTERVAL <= latest as int) by (nonlinear_arith)
                requires
                    i < latest as int / 10000 + 1,
                    CHECKPOINT_INTERVAL == 10000,
            ;
        }
        let lastc = cs[cs.len() - 1].0;
        assert(lastc as int == (latest as int / 10000) * 10000);
        assert(lastc <= latest && latest < lastc + CHECKPOINT_INTERVAL) by (nonlinear_arith)
            requires
                lastc as int == (latest as int / 10000) * 10000,
                CHECKPOINT_INTERVAL == 10000,
        ;
        assert(checkpoints_valid(cs, rs[rs.len() - 1].0));
        assert forall|i: int, j: int|
            0 <= i < cs.len() && 0 <= j < rs.len() && #[trigger] cs[i].0 == #[trigger] rs[j].0 implies cs[i].1
                == rs[j].1 by {
            assert(cs[i].0 as int == i * CHECKPOINT_INTERVAL);
        }
    }
    assert(r.recents_view() =~= recents_of_chain(canon@));
    assert(r.checkpoints_view() =~= checkpoints_of_chain(canon@));
    r
}

/// The recent entries of the chain `canon`: its last `NUM_RECENT_BLOCKS` heights.
pub open spec fn recents_of_chain(canon: Seq<u64>) -> Seq<(u32, u64)> {
    Seq::new(
        (canon.len() - recents_start(canon.len() as int)) as nat,
        |i: int| ((recents_start(canon.len() as int) + i) as u32, canon[recents_start(canon.len() as int) + i]),
    )
}

/// The checkpoints of the chain `canon`: every `CHECKPOINT_INTERVAL`-th height from zero.
pub open spec fn checkpoints_of_chain(canon: Seq<u64>) -> Seq<(u32, u64)> {
    Seq::new(
        ((canon.len() - 1) / CHECKPOINT_INTERVAL as int + 1) as nat,
        |i: int| ((i * CHECKPOINT_INTERVAL) as u32, canon[i * CHECKPOINT_INTERVAL]),
    )
}

/// The first height that the recent entries of a chain of `len` blocks list.
pub open spec fn recents_start(len: int) -> int {
    if len - 1 >= NUM_RECENT_BLOCKS - 1 {
        len - NUM_RECENT_BLOCKS
    } else {
        0
    }
}

/// The state of block sync: the peers' locators, the pairwise common ancestors,
/// and whether this node is caught up.
pub struct BlockSync {
    mode: BlockSyncMode,
    /// The block locators of each peer, at most one entry per peer.
    locators: Vec<(PeerAddr, BlockLocators)>,
    /// The common ancestor of each ordered pair of nodes, at most one entry per pair.
    common_ancestors: IndexMap<PairKey, u32>,
    is_block_synced: bool,
    num_blocks_behind: u32,
}

/// The entries of the locators that the table holds for each peer.
pub open spec fn entries_table(t: Seq<(PeerAddr, BlockLocators)>) -> Seq<(PeerAddr, Seq<(u32, u64)>)> {
    Seq::new(t.len(), |i: int| (t[i].0, t[i].1.entries_view()))
}

impl BlockSync {
    /// The locators of each peer, as (peer, locators).
    pub closed spec fn locator_table(&self) -> Seq<(PeerAddr, BlockLocators)> {
        self.locators@
    }

    /// The common ancestor of each ordered pair of nodes.
    pub closed spec fn ancestor_table(&self) -> Seq<(PeerPair, u32)> {
        pairs_of(ancestor_entries(self.common_ancestors))
    }

    pub closed spec fn mode_view(&self) -> BlockSyncMode {
        self.mode
    }

    pub closed spec fn synced_view(&self) -> bool {
        self.is_block_synced
    }

    pub closed spec fn blocks_behind_view(&self) -> u32 {
        self.num_blocks_behind
    }

    /// Each peer and each pair has one entry, and every stored locator is well-formed.
    pub open spec fn wf(&self) -> bool {
        &&& keys_unique(self.locator_table())
        &&& keys_unique(self.ancestor_table())
        &&& forall|i: int| 0 <= i < self.locator_table().len() ==> (#[trigger] self.locator_table()[i]).1.valid()
    }

    /// The locators held for `peer`, if any.
    pub open spec fn locators_of(&self, peer: PeerAddr) -> Option<BlockLocators> {
        assoc(self.locator_table(), peer)
    }

    /// The locators held for `peer` have the same entries as `l`.
    pub open spec fn holds_same_locators(&self, peer: PeerAddr, l: BlockLocators) -> bool {
        match self.locators_of(peer) {
            Some(h) => h.recents_view() == l.recents_view() && h.checkpoints_view() == l.checkpoints_view(),
            None => false,
        }
    }

    /// The common ancestor held for the pair (`a`, `b`), if any.
    pub open spec fn ancestor_of(&self, a: PeerAddr, b: PeerAddr) -> Option<u32> {
        assoc(self.ancestor_table(), PeerPair(a, b))
    }

    /// Initializes a block sync state with no peers.
    pub fn new(mode: BlockSyncMode) -> (r: BlockSync)
        ensures
            r.wf(),
            r.mode_view() == mode,
            r.locator_table().len() == 0,
            r.ancestor_table().len() == 0,
            !r.synced_view(),
    {
        BlockSync {
            mode,
            locators: Vec::new(),
            common_ancestors: ancestors_new(),
            is_block_synced: false,
            num_blocks_behind: 0,
        }
    }

    /// Returns the block sync mode.
    pub fn mode(&self) -> (r: BlockSyncMode)
        ensures
            r == self.mode_view(),
    {
        self.mode
    }

    /// Returns `true` if the node is synced up to the latest block, within the tolerance.
    pub fn is_block_synced(&self) -> (r: bool)
        ensures
            r == self.synced_view(),
    {
        self.is_block_synced
    }

    /// Returns the block locators of the canonical chain whose block hashes, by height,
    /// are `canon` (see `block_locators_of`).
    pub fn get_block_locators(&self, canon: &Vec<u64>) -> (r: BlockLocators)
        requires
            0 < canon.len() <= u32::MAX,
        ensures
            r.valid(),
            r.recents_view() == recents_of_chain(canon@),
            r.checkpoints_view() == checkpoints_of_chain(canon@),
    {
        block_locators_of(canon)
    }

    /// Returns the number of blocks the node is behind the greatest peer height.
    pub fn num_blocks_behind(&self) -> (r: u32)
        ensures
            r == self.blocks_behind_view(),
    {
        self.num_blocks_behind
    }

    fn locator_index(&self, peer: PeerAddr) -> (r: Option<usize>)
        ensures
            match r {
                Some(i) => i < self.locators@.len() && self.locators@[i as int].0 == peer,
                None => !has_key(self.locators@, peer),
            },
    {
        let mut i: usize = 0;
        while i < self.locators.len()
            invariant
                i <= self.locators@.len(),
                forall|k: int| 0 <= k < i ==> self.locators@[k].0 != peer,
            decreases self.locators.len() - i,
        {
            if self.locators[i].0 == peer {
                return Some(i);
            }
            i = i + 1;
        }
        None
    }

    /// Returns the latest block height of the given peer, if its locators are held.
    pub fn get_peer_height(&self, peer: PeerAddr) -> (r: Option<u32>)
        requires
            self.wf(),
        ensures
            match self.locators_of(peer) {
                Some(l) => r == Some(l.recents_view()[l.recents_view().len() - 1].0),
                None => r is None,
            },
    {
        match self.locator_index(peer) {
            Some(i) => {
                proof {
                    lemma_assoc_at(self.locators@, i as int);
                }
                Some(self.locators[i].1.latest_locator_height())
            },
            None => None,
        }
    }

    /// Returns the common ancestor held for the given pair of peers, if any.
    pub fn get_common_ancestor(&self, a: PeerAddr, b: PeerAddr) -> (r: Option<u32>)
        requires
            self.wf(),
        ensures
            r == self.ancestor_of(a, b),
    {
        let pair = PeerPair(a, b);
        let ghost entries = ancestor_entries(self.common_ancestors);
        let r = ancestors_get(&self.common_ancestors, pair_key_of(pair));
        proof {
            match r {
                Some(v) => {
                    let i = choose|i: int| 0 <= i < entries.len() && #[trigger] entries[i] == (pair_key(pair), v);
                    assert(pairs_of(entries)[i] == (pair, v));
                    lemma_assoc_at(pairs_of(entries), i);
                },
                None => {
                    assert forall|i: int| 0 <= i < pairs_of(entries).len() implies #[trigger] pairs_of(entries)[i].0 != pair by {
                        assert(entries[i].0 != pair_key(pair));
                    }
                },
            }
        }
        r
    }

    fn set_ancestor(&mut self, pair: PeerPair, height: u32)
        requires
            keys_unique(old(self).ancestor_table()),
        ensures
            keys_unique(final(self).ancestor_table()),
            assoc(final(self).ancestor_table(), pair) == Some(height),
            forall|p: PeerPair| p != pair ==> assoc(final(self).ancestor_table(), p) == assoc(
                old(self).ancestor_table(),
                p,
            ),
            final(self).locators == old(self).locators,
            final(self).mode == old(self).mode,
            final(self).is_block_synced == old(self).is_block_synced,
            final(self).num_blocks_behind == old(self).num_blocks_behind,
    {
        let ghost before = ancestor_entries(self.common_ancestors);
        let k = pair_key_of(pair);
        proof {
            assert forall|i: int, j: int| 0 <= i < before.len() && 0 <= j < before.len() && i != j
                implies #[trigger] before[i].0 != #[trigger] before[j].0 by {
                assert(pairs_of(before)[i].0 != pairs_of(before)[j].0);
            }
        }
        let _ = ancestors_insert(&mut self.common_ancestors, k, height);
        proof {
            let after = ancestor_entries(self.common_ancestors);
            assert forall|i: int, j: int| 0 <= i < pairs_of(after).len() && 0 <= j < pairs_of(after).len() && i != j
                implies #[trigger] pairs_of(after)[i].0 != #[trigger] pairs_of(after)[j].0 by {
                assert(after[i].0 != after[j].0);
            }
            if has_key(before, k) {
                let i = choose|i: int| 0 <= i < before.len() && #[trigger] before[i].0 == k
                    && after == before.update(i, (k, height));
                assert(pairs_of(after) =~= pairs_of(before).update(i, (pair, height)));
                assert(pairs_of(before)[i].0 == pair);
                lemma_assoc_update(pairs_of(before), i, height);
            } else {
                assert(!has_key(pairs_of(before), pair)) by {
                    assert forall|i: int| 0 <= i < pairs_of(before).len() implies #[trigger] pairs_of(before)[i].0 != pair by {
                        assert(before[i].0 != k);
                    }
                }
                assert(pairs_of(after) =~= pairs_of(before).push((pair, height)));
                lemma_assoc_push(pairs_of(before), pair, height);
            }
        }
    }

    /// Stores the locators of `peer` and recomputes its common ancestors: with this
    /// node, against the canonical chain whose block hashes by height are `canon`, and
    /// with every other peer whose locators are held. Each computation scans upwards and
    /// stops at the first fork. Locators equal to those already held change nothing;
    /// malformed locators are refused and change nothing.
    pub fn update_peer_locators(&mut self, peer: PeerAddr, locators: BlockLocators, canon: &Vec<u64>) -> (r: Result<(), LocatorError>)
        requires
            old(self).wf(),
        ensures
            final(self).wf(),
            final(self).mode_view() == old(self).mode_view(),
            final(self).synced_view() == old(self).synced_view(),
            final(self).blocks_behind_view() == old(self).blocks_behind_view(),
            match old(self).locators_of(peer) {
                Some(l) => l.recents_view() == locators.recents_view() && l.checkpoints_view()
                    == locators.checkpoints_view() ==> r is Ok && *final(self) == *old(self),
                None => true,
            },
            match r {
                Err(e) => locator_fault(locators.recents_view(), locators.checkpoints_view()) == Some(e)
                    && *final(self) == *old(self),
                Ok(()) => locators.valid(),
            },
            r is Ok ==> final(self).locators_of(peer) is Some
                && final(self).locators_of(peer).unwrap().recents_view() == locators.recents_view()
                && final(self).locators_of(peer).unwrap().checkpoints_view() == locators.checkpoints_view(),
            r is Ok && !old(self).holds_same_locators(peer, locators) ==> {
                &&& forall|q: PeerAddr| q != peer ==> #[trigger] final(self).locators_of(q) == old(self).locators_of(q)
                &&& final(self).ancestor_of(dummy_self_ip_spec(), peer) == Some(
                    common_ancestor_of(locators.entries_view(), canon_refs(locators.entries_view(), canon@)),
                )
                &&& forall|q: PeerAddr| q != peer && #[trigger] old(self).locators_of(q) is Some ==> final(self).ancestor_of(peer, q) == Some(
                    common_ancestor_of(
                        old(self).locators_of(q).unwrap().entries_view(),
                        peer_refs(old(self).locators_of(q).unwrap().entries_view(), locators.entries_view()),
                    ),
                )
                &&& forall|a: PeerAddr, b: PeerAddr|
                    !(a == dummy_self_ip_spec() && b == peer) && !(a == peer && b != peer && old(self).locators_of(b) is Some)
                        ==> #[trigger] final(self).ancestor_of(a, b) == old(self).ancestor_of(a, b)
            },
    {
        // If the locators match the existing locators for the peer, return early.
        let existing = self.locator_index(peer);
        match existing {
            Some(i) => {
                proof {
                    lemma_assoc_at(self.locators@, i as int);
                }
                if self.locators[i].1.same_as(&locators) {
                    return Ok(());
                }
            },
            None => {},
        }
        // Ensure the given block locators are well-formed.
        match locators.ensure_is_valid() {
            Ok(()) => {},
            Err(e) => {
                return Err(e);
            },
        }
        let ghost old_locs = self.locators@;
        let entries = locators.entries();
        // Update the locators entry for the given peer.
        let stored = locators.duplicate();
        let ghost stored_g = stored;
        match existing {
            Some(i) => {
                proof {
                    lemma_assoc_update(self.locators@, i as int, stored);
                }
                self.locators.set(i, (peer, stored));
            },
            None => {
                proof {
                    lemma_assoc_push(self.locators@, peer, stored);
                }
                self.locators.push((peer, stored));
            },
        }
        assert(forall|q: PeerAddr| q != peer ==> assoc(self.locators@, q) == assoc(old_locs, q));
        // Compute the common ancestor with this node.
        // This scans upwards and stops at the first fork: a locator set that forks and
        // later rejoins the canonical chain gets no credit past the fork.
        let mut refs: Vec<Option<u64>> = Vec::new();
        let mut i: usize = 0;
        while i < entries.len()
            invariant
                i <= entries@.len(),
                refs@ == canon_refs(entries@, canon@).subrange(0, i as int),
            decreases entries.len() - i,
        {
            let h = entries[i].0;
            let v = if (h as usize) < canon.len() {
                Some(canon[h as usize])
            } else {
                None
            };
            refs.push(v);
            i = i + 1;
            assert(refs@ =~= canon_refs(entries@, canon@).subrange(0, i as int));
        }
        assert(refs@ =~= canon_refs(entries@, canon@));
        let ancestor = scan_common_ancestor(&entries, &refs);
        self.set_ancestor(PeerPair(dummy_self_ip(), peer), ancestor);
        let ghost after_self = self.ancestor_table();
        // Compute the common ancestor with every other peer.
        let mut j: usize = 0;
        while j < self.locators.len()
            invariant
                self.mode == old(self).mode,
                self.is_block_synced == old(self).is_block_synced,
                self.num_blocks_behind == old(self).num_blocks_behind,
                old_locs == old(self).locators@,
                assoc(self.locators@, peer) == Some(stored_g),
                stored_g.recents_view() == locators.recents_view(),
                stored_g.checkpoints_view() == locators.checkpoints_view(),
                assoc(after_self, PeerPair(dummy_self_ip_spec(), peer)) == Some(
                    common_ancestor_of(locators.entries_view(), canon_refs(locators.entries_view(), canon@)),
                ),
                forall|p: PeerPair| p != PeerPair(dummy_self_ip_spec(), peer) ==> #[trigger] assoc(after_self, p) == assoc(old(self).ancestor_table(), p),
                keys_unique(self.locators@),
                keys_unique(self.ancestor_table()),
                forall|k: int| 0 <= k < self.locators@.len() ==> (#[trigger] self.locators@[k]).1.valid(),
                assoc(self.locators@, peer) is Some,
                forall|q: PeerAddr| q != peer ==> #[trigger] assoc(self.locators@, q) == assoc(old_locs, q),
                entries@ == locators.entries_view(),
                j <= self.locators@.len(),
                forall|k: int| 0 <= k < j && (#[trigger] self.locators@[k]).0 != peer ==>
                    assoc(self.ancestor_table(), PeerPair(peer, self.locators@[k].0)) == Some(
                        common_ancestor_of(self.locators@[k].1.entries_view(), peer_refs(self.locators@[k].1.entries_view(), entries@)),
                    ),
                forall|p: PeerPair| !(p.0 == peer && exists|k: int| 0 <= k < j && #[trigger] self.locators@[k].0 == p.1 && p.1 != peer)
                    ==> #[trigger] assoc(self.ancestor_table(), p) == assoc(after_self, p),
            decreases self.locators.len() - j,
        {
            let other = self.locators[j].0;
            if other != peer {
                let other_entries = self.locators[j].1.entries();
                let mut orefs: Vec<Option<u64>> = Vec::new();
                let mut k: usize = 0;
                while k < other_entries.len()
                    invariant
                        k <= other_entries@.len(),
                        orefs@ == peer_refs(other_entries@, entries@).subrange(0, k as int),
                    decreases other_entries.len() - k,
                {
                    let v = find_hash(&entries, other_entries[k].0);
                    orefs.push(v);
                    k = k + 1;
                    assert(orefs@ =~= peer_refs(other_entries@, entries@).subrange(0, k as int));
                }
                assert(orefs@ =~= peer_refs(other_entries@, entries@));
                let a = scan_common_ancestor(&other_entries, &orefs);
                self.set_ancestor(PeerPair(peer, other), a);
            }
            j = j + 1;
        }
        proof {
            assert forall|q: PeerAddr| q != peer && #[trigger] assoc(old_locs, q) is Some implies assoc(
                self.ancestor_table(),
                PeerPair(peer, q),
            ) == Some(
                common_ancestor_of(
                    assoc(old_locs, q).unwrap().entries_view(),
                    peer_refs(assoc(old_locs, q).unwrap().entries_view(), locators.entries_view()),
                ),
            ) by {
                assert(assoc(self.locators@, q) == assoc(old_locs, q));
                assert(has_key(self.locators@, q));
                let k = choose|k: int| 0 <= k < self.locators@.len() && #[trigger] self.locators@[k].0 == q;
                lemma_assoc_at(self.locators@, k);
            }
            assert forall|a: PeerAddr, b: PeerAddr|
                !(a == dummy_self_ip_spec() && b == peer) && !(a == peer && b != peer && assoc(old_locs, b) is Some)
                    implies #[trigger] assoc(self.ancestor_table(), PeerPair(a, b)) == assoc(old(self).ancestor_table(), PeerPair(a, b)) by {
                if a == peer && b != peer && exists|k: int| 0 <= k < self.locators@.len() && #[trigger] self.locators@[k].0 == b {
                    let k = choose|k: int| 0 <= k < self.locators@.len() && #[trigger] self.locators@[k].0 == b;
                    lemma_assoc_at(self.locators@, k);
                }
            }
        }
        Ok(())
    }

    /// Removes the peer's locators, if held. Common ancestors are kept.
    pub fn remove_peer(&mut self, peer: PeerAddr)
        requires
            old(self).wf(),
        ensures
            final(self).wf(),
            final(self).locators_of(peer) is None,
            forall|q: PeerAddr| q != peer ==> #[trigger] final(self).locators_of(q) == old(self).locators_of(q),
            final(self).ancestor_table() == old(self).ancestor_table(),
            final(self).mode_view() == old(self).mode_view(),
            final(self).synced_view() == old(self).synced_view(),
            final(self).blocks_behind_view() == old(self).blocks_behind_view(),
    {
        match self.locator_index(peer) {
            Some(i) => {
                proof {
                    lemma_assoc_remove(self.locators@, i as int);
                }
                self.locators.remove(i);
            },
            None => {},
        }
    }

    /// Records how far this node is behind the greatest peer height: it is synced
    /// when it is at most `tolerance` blocks behind.
    pub fn update_is_block_synced(&mut self, canon_height: u32, greatest_peer_height: u32, tolerance: u32)
        ensures
            final(self).locator_table() == old(self).locator_table(),
            final(self).ancestor_table() == old(self).ancestor_table(),
            final(self).mode_view() == old(self).mode_view(),
            final(self).blocks_behind_view() == (if greatest_peer_height > canon_height {
                greatest_peer_height - canon_height
            } else {
                0
            }),
            final(self).synced_view() == (final(self).blocks_behind_view() <= tolerance),
    {
        let behind = greatest_peer_height.saturating_sub(canon_height);
        self.num_blocks_behind = behind;
        self.is_block_synced = behind <= tolerance;
    }

    /// Returns the greatest latest height over the peers' locators, or zero.
    pub fn greatest_peer_height(&self) -> (r: u32)
        requires
            self.wf(),
        ensures
            r == greatest_height(self.locator_table()),
    {
        let mut best: u32 = 0;
        let mut i: usize = 0;
        while i < self.locators.len()
            invariant
                self.wf(),
                i <= self.locators@.len(),
                best == greatest_height(self.locators@.take(i as int)),
            decreases self.locators.len() - i,
        {
            let h = self.locators[i].1.latest_locator_height();
            proof {
                assert(self.locators@.take(i + 1).drop_last() =~= self.locators@.take(i as int));
            }
            if h > best {
                best = h;
            }
            i = i + 1;
        }
        assert(self.locators@.take(self.locators@.len() as int) =~= self.locators@);
        best
    }

    /// Performs one round of block sync bookkeeping: compares the canonical height
    /// with the greatest peer height, within `MAX_BLOCKS_BEHIND`.
    pub fn try_block_sync(&mut self, canon_height: u32)
        requires
            old(self).wf(),
        ensures
            final(self).wf(),
            final(self).locator_table() == old(self).locator_table(),
            final(self).ancestor_table() == old(self).ancestor_table(),
            final(self).blocks_behind_view() == (if greatest_height(old(self).locator_table()) > canon_height {
                greatest_height(old(self).locator_table()) - canon_height
            } else {
                0
            }),
            final(self).synced_view() == (final(self).blocks_behind_view() <= MAX_BLOCKS_BEHIND),
    {
        let greatest = self.greatest_peer_height();
        self.update_is_block_synced(canon_height, greatest, MAX_BLOCKS_BEHIND);
    }
}

/// An ordered pair of peers as a tuple of integers: the common-ancestor table is
/// keyed by it.
pub type PairKey = (u32, u16, u32, u16);

/// The tuple of integers that stands for a pair of peers.
pub open spec fn pair_key(p: PeerPair) -> PairKey {
    (p.0.ip, p.0.port, p.1.ip, p.1.port)
}

/// The pair of peers that a key stands for.
pub open spec fn key_pair(k: PairKey) -> PeerPair {
    PeerPair(PeerAddr { ip: k.0, port: k.1 }, PeerAddr { ip: k.2, port: k.3 })
}

/// The entries of a common-ancestor table, keyed by pairs of peers.
pub open spec fn pairs_of(e: Seq<(PairKey, u32)>) -> Seq<(PeerPair, u32)> {
    Seq::new(e.len(), |i: int| (key_pair(e[i].0), e[i].1))
}

fn pair_key_of(p: PeerPair) -> (r: PairKey)
    ensures
        r == pair_key(p),
{
    (p.0.ip, p.0.port, p.1.ip, p.1.port)
}

/// What a common-ancestor table holds: its entries in insertion order.
pub uninterp spec fn ancestor_entries(m: IndexMap<PairKey, u32>) -> Seq<(PairKey, u32)>;

/// Relies on `indexmap::IndexMap::new`: a new map is empty.
#[verifier::external_body]
fn ancestors_new() -> (r: IndexMap<PairKey, u32>)
    ensures
        ancestor_entries(r).len() == 0,
{
    IndexMap::new()
}

/// Relies on `indexmap::IndexMap::get`: the value of the entry with the key, if any.
#[verifier::external_body]
fn ancestors_get(m: &IndexMap<PairKey, u32>, k: PairKey) -> (r: Option<u32>)
    ensures
        match r {
            Some(v) => exists|i: int| 0 <= i < ancestor_entries(*m).len() && #[trigger] ancestor_entries(*m)[i] == (k, v),
            None => !has_key(ancestor_entries(*m), k),
        },
{
    m.get(&k).copied()
}

/// Relies on `indexmap::IndexMap::insert`: a new key is appended last; an existing
/// key keeps its place, takes the new value, and its old value is returned. Keys
/// stay unique.
#[verifier::external_body]
fn ancestors_insert(m: &mut IndexMap<PairKey, u32>, k: PairKey, v: u32) -> (r: Option<u32>)
    ensures
        keys_unique(ancestor_entries(*old(m))) ==> keys_unique(ancestor_entries(*final(m))),
        !has_key(ancestor_entries(*old(m)), k) ==> r is None && ancestor_entries(*final(m)) == ancestor_entries(*old(m)).push((k, v)),
        has_key(ancestor_entries(*old(m)), k) ==> exists|i: int| 0 <= i < ancestor_entries(*old(m)).len() && #[trigger] ancestor_entries(*old(m))[i].0 == k
            && ancestor_entries(*final(m)) == ancestor_entries(*old(m)).update(i, (k, v)) && r == Some(ancestor_entries(*old(m))[i].1),
{
    m.insert(k, v)
}

/// The greatest latest height over the locators in the table, or zero.
pub open spec fn greatest_height(t: Seq<(PeerAddr, BlockLocators)>) -> u32
    decreases t.len(),
{
    if t.len() == 0 {
        0
    } else {
        let rest = greatest_height(t.drop_last());
        let h = t.last().1.recents_view().last().0;
        if h > rest {
            h
        } else {
            rest
        }
    }
}

/// The address that stands for this node itself.
pub open spec fn dummy_self_ip_spec() -> PeerAddr {
    PeerAddr { ip: LOCALHOST_V4, port: 0 }
}

} // verus!
