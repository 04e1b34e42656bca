//! Peer identities and peer endpoints as the tracker reports them.

use vstd::prelude::*;

verus! {

/// Relies on rand::thread_rng / rand::RngCore::fill_bytes for twenty
/// random bytes.  Nothing is promised of the outcome.
#[verifier::external_body]
fn random_bytes_20() -> (r: [u8; 20]) {
    let mut bytes = [0u8; 20];
    rand::RngCore::fill_bytes(&mut rand::thread_rng(), &mut bytes);
    bytes
}

/// The 20-byte identity a client presents to trackers and peers.
#[derive(Debug, Clone, PartialEq, Eq)]
pub struct PeerId([u8; 20]);

impl PeerId {
    /// The identity's bytes, for contracts.
    pub closed spec fn spec_bytes(&self) -> [u8; 20] {
        self.0
    }

    /// An identity over the given bytes.
    pub fn new(peer_id: [u8; 20]) -> (r: Self)
        ensures
            r.spec_bytes() == peer_id,
    {
        PeerId(peer_id)
    }

    /// A fresh random identity, drawn once per client process.
    pub fn random() -> (r: Self) {
        PeerId::new(random_bytes_20())
    }

    /// The identity's bytes.
    pub fn as_bytes(&self) -> (r: &[u8; 20])
        ensures
            r@ == self.spec_bytes()@,
    {
        &self.0
    }
}

impl Default for PeerId {
    /// The all-zero identity.
    fn default() -> (r: Self)
        ensures
            r.spec_bytes()@ =~= seq![0u8; 20],
    {
        PeerId::new([0u8; 20])
    }
}

/// An IP address as plain octets, most significant first: four for
/// IPv4, sixteen for IPv6.
#[derive(Debug, Clone, Copy, PartialEq, Eq)]
pub enum IpAddress {
    V4([u8; 4]),
    V6([u8; 16]),
}

/// A peer's network endpoint: an IP address and a port.
#[derive(Debug, Clone, PartialEq, Eq)]
pub struct PeerEndpoint {
    /// The peer's address.
    pub ip: IpAddress,
    /// The port, in host order.
    pub port: u16,
}

/// A peer as the tracker reports it: an optional identity and an
/// endpoint.  Peers from the compact format carry no identity.
#[derive(Debug, Clone, PartialEq, Eq)]
pub struct Peer {
    /// The peer's identity, when the tracker reported one.
    pub peer_id: Option<PeerId>,
    /// Where the peer listens.
    pub addr: PeerEndpoint,
}

impl Peer {
    /// A peer over the given identity and endpoint.
    pub fn new(peer_id: Option<PeerId>, addr: PeerEndpoint) -> (r: Self)
        ensures
            r.peer_id == peer_id,
            r.addr == addr,
    {
        Peer { peer_id, addr }
    }
}

} // verus!
