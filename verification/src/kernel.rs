//! The peers of a node and what keeps track of them.

use vstd::prelude::*;

verus! {

/// Whether a peer is connected.
#[derive(Debug, Clone, Copy, PartialEq, Eq, Structural)]
pub enum PeerState {
    Connected,
    Disconnected,
}

/// A peer: its state and its address.
#[derive(Debug)]
pub struct Peer {
    pub state: PeerState,
    pub addr: String,
}

/// What keeps track of peers.
pub trait Kernel {
    /// The peers that are known.
    fn peers(&self) -> Vec<Peer>;

    /// Pings a peer.
    fn ping(&self, peer: Peer) -> Result<(), ()>;

    /// Forgets a peer.
    fn purge(&self, peer: Peer);
}

/// A kernel that knows no peer and reaches every peer.
#[derive(Debug)]
pub struct K {
    peers: Vec<Peer>,
}

impl K {
    /// The peers that this kernel holds.
    pub closed spec fn held(&self) -> Seq<Peer> {
        self.peers@
    }

    /// The periodic work of the kernel: none so far.
    pub fn cron(&self) {
    }
}

impl Default for K {
    fn default() -> (kernel: K)
        ensures
            kernel.held() == Seq::<Peer>::empty(),
    {
        K { peers: Vec::new() }
    }
}

impl Kernel for K {
    fn peers(&self) -> (peers: Vec<Peer>)
        ensures
            peers@ == Seq::<Peer>::empty(),
    {
        Vec::new()
    }

    fn ping(&self, peer: Peer) -> (reached: Result<(), ()>)
        ensures
            reached is Ok,
    {
        Ok(())
    }

    fn purge(&self, peer: Peer) {
    }
}

} // verus!
