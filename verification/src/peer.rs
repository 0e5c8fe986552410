use vstd::prelude::*;

verus! {

/// An IP address, as the integer of its octets in network order.
#[derive(Clone, Copy, Debug, PartialEq, Eq, Hash, Structural)]
pub enum IpAddress {
    V4(u32),
    V6(u128),
}

/// Where a peer listens.
#[derive(Clone, Copy, Debug, PartialEq, Eq, Hash, Structural)]
pub struct PeerAddress {
    pub ip: IpAddress,
    pub port: u16,
}

/// A peer of the swarm. Two peers are the same peer when they share an
/// address; the peer id is learnt only from the handshake and plays no part.
#[derive(Clone, Copy, Debug)]
pub struct Peer {
    pub peer_id: Option<[u8; 20]>,
    pub address: PeerAddress,
}

impl PartialEq for Peer {
    fn eq(&self, other: &Self) -> (r: bool) {
        self.address == other.address
    }
}

impl vstd::std_specs::cmp::PartialEqSpecImpl for Peer {
    open spec fn obeys_eq_spec() -> bool {
        true
    }

    open spec fn eq_spec(&self, other: &Self) -> bool {
        self.address == other.address
    }
}

impl Eq for Peer {}

/// Passes each peer on the first time it is reported and never again,
/// whichever source reports it.
pub struct PeerDedup {
    pub seen: Vec<PeerAddress>,
}

impl PeerDedup {
    pub fn new() -> (r: Self)
        ensures
            r.seen@.len() == 0,
    {
        PeerDedup { seen: Vec::new() }
    }

    /// Whether `peer` is new; it is remembered either way.
    pub fn insert(&mut self, peer: &Peer) -> (r: bool)
        ensures
            r == !old(self).seen@.contains(peer.address),
            final(self).seen@ == (if r {
                old(self).seen@.push(peer.address)
            } else {
                old(self).seen@
            }),
    {
        let mut k: usize = 0;
        while k < self.seen.len()
            invariant
                k <= self.seen@.len(),
                forall|j: int| 0 <= j < k ==> self.seen@[j] != peer.address,
            decreases self.seen@.len() - k,
        {
            if self.seen[k] == peer.address {
                assert(self.seen@[k as int] == peer.address);
                return false;
            }
            k = k + 1;
        }
        self.seen.push(peer.address);
        true
    }
}

/// A peer reported a second time is not passed on again.
pub proof fn law_inserted_once(seen: Seq<PeerAddress>, address: PeerAddress)
    ensures
        (if !seen.contains(address) {
            seen.push(address)
        } else {
            seen
        }).contains(address),
{
    if !seen.contains(address) {
        assert(seen.push(address)[seen.len() as int] == address);
    }
}

} // verus!
