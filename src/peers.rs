use vstd::prelude::*;

use crate::block_sync::PeerAddr;

verus! {

/// `x` occurs in `s`.
pub open spec fn addr_in(s: Seq<PeerAddr>, x: PeerAddr) -> bool {
    exists|i: int| 0 <= i < s.len() && s[i] == x
}

fn contains_addr(v: &Vec<PeerAddr>, x: PeerAddr) -> (r: bool)
    ensures
        r == addr_in(v@, x),
{
    let mut i: usize = 0;
    while i < v.len()
        invariant
            i <= v@.len(),
            forall|k: int| 0 <= k < i ==> v@[k] != x,
        decreases v.len() - i,
    {
        if v[i] == x {
            return true;
        }
        i = i + 1;
    }
    false
}

/// The connected peers that a block or transaction is passed on to: all of them but
/// the one it came from and this node, in order.
pub open spec fn propagation_targets_of(connected: Seq<PeerAddr>, sender: PeerAddr, local: PeerAddr) -> Seq<PeerAddr> {
    connected.filter(forwarded_to(sender, local))
}

/// A peer is neither the sender nor this node.
pub open spec fn forwarded_to(sender: PeerAddr, local: PeerAddr) -> spec_fn(PeerAddr) -> bool {
    |p: PeerAddr| p != sender && p != local
}

/// A bootnode is neither this node nor connected.
pub open spec fn worth_connecting(connected: Seq<PeerAddr>, local: PeerAddr) -> spec_fn(PeerAddr) -> bool {
    |b: PeerAddr| b != local && !addr_in(connected, b)
}

/// Returns the peers to pass a block or transaction on to.
pub fn propagation_targets(connected: &Vec<PeerAddr>, sender: PeerAddr, local: PeerAddr) -> (r: Vec<PeerAddr>)
    ensures
        r@ == propagation_targets_of(connected@, sender, local),
{
    let ghost pred = forwarded_to(sender, local);
    let mut out: Vec<PeerAddr> = Vec::new();
    let mut i: usize = 0;
    while i < connected.len()
        invariant
            i <= connected@.len(),
            pred == forwarded_to(sender, local),
            out@ == connected@.subrange(0, i as int).filter(pred),
        decreases connected.len() - i,
    {
        let p = connected[i];
        proof {
            assert(connected@.subrange(0, i + 1) =~= connected@.subrange(0, i as int).push(p));
            connected@.subrange(0, i as int).lemma_filter_push(p, pred);
        }
        if p != sender && p != local {
            out.push(p);
        }
        i = i + 1;
    }
    assert(connected@.subrange(0, connected@.len() as int) =~= connected@);
    out
}

/// The bootnodes to send a connection request to: those that are neither this node
/// nor already connected, in order.
pub open spec fn bootnodes_to_connect_of(bootnodes: Seq<PeerAddr>, connected: Seq<PeerAddr>, local: PeerAddr) -> Seq<PeerAddr> {
    bootnodes.filter(worth_connecting(connected, local))
}

/// Returns the bootnodes to connect to.
pub fn bootnodes_to_connect(bootnodes: &Vec<PeerAddr>, connected: &Vec<PeerAddr>, local: PeerAddr) -> (r: Vec<PeerAddr>)
    ensures
        r@ == bootnodes_to_connect_of(bootnodes@, connected@, local),
{
    let ghost pred = worth_connecting(connected@, local);
    let mut out: Vec<PeerAddr> = Vec::new();
    let mut i: usize = 0;
    while i < bootnodes.len()
        invariant
            i <= bootnodes@.len(),
            pred == worth_connecting(connected@, local),
            out@ == bootnodes@.subrange(0, i as int).filter(pred),
        decreases bootnodes.len() - i,
    {
        let b = bootnodes[i];
        proof {
            assert(bootnodes@.subrange(0, i + 1) =~= bootnodes@.subrange(0, i as int).push(b));
            bootnodes@.subrange(0, i as int).lemma_filter_push(b, pred);
        }
        if b != local && !contains_addr(connected, b) {
            out.push(b);
        }
        i = i + 1;
    }
    assert(bootnodes@.subrange(0, bootnodes@.len() as int) =~= bootnodes@);
    out
}

} // verus!
