//! What a node knows of the network.

use vstd::prelude::*;

verus! {

/// The peers a node knows and the height of its chain.
pub struct NetworkState {
    peers: Vec<String>,
    chain_height: u64,
}

impl NetworkState {
    pub closed spec fn peer_list(&self) -> Seq<String> {
        self.peers@
    }

    pub closed spec fn height(&self) -> u64 {
        self.chain_height
    }

    /// The state of a node that has just started: no peers, height 0.
    pub fn current() -> (r: NetworkState)
        ensures
            r.peer_list().len() == 0,
            r.height() == 0,
    {
        NetworkState { peers: Vec::new(), chain_height: 0 }
    }

    /// The known peers.
    pub fn peers(&self) -> (r: &Vec<String>)
        ensures
            r@ == self.peer_list(),
    {
        &self.peers
    }

    pub fn chain_height(&self) -> (r: u64)
        ensures
            r == self.height(),
    {
        self.chain_height
    }
}

/// A proof for the current state; no proving system is wired in, so the
/// proof is 32 zero bytes.
pub fn generate_proof() -> (r: Vec<u8>)
    ensures
        r@ == Seq::new(32, |i: int| 0u8),
{
    let mut v: Vec<u8> = Vec::new();
    let mut i: usize = 0;
    while i < 32
        invariant
            i <= 32,
            v@ == Seq::new(i as nat, |j: int| 0u8),
        decreases 32 - i,
    {
        v.push(0);
        i = i + 1;
        assert(v@ =~= Seq::new(i as nat, |j: int| 0u8));
    }
    v
}

} // verus!
