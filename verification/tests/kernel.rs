use deterministic::kernel::{Kernel, Peer, PeerState, K};

#[test]
fn kernel_it_works() {}

#[test]
fn default_kernel_knows_no_peer() {
    let kernel = K::default();
    kernel.cron();
    assert_eq!(kernel.peers().len(), 0);
}

#[test]
fn default_kernel_reaches_every_peer() {
    let kernel = K::default();
    let peer = Peer { state: PeerState::Disconnected, addr: String::from("10.0.0.1:7000") };
    assert_eq!(kernel.ping(peer), Ok(()));
    let gone = Peer { state: PeerState::Connected, addr: String::from("10.0.0.2:7000") };
    kernel.purge(gone);
    assert_eq!(kernel.peers().len(), 0);
}
