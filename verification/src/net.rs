//! Addresses of peers, held as plain integers so that they can be compared.

use vstd::prelude::*;

verus! {

/// The IP address of a peer: an IPv4 address as a big-endian `u32`, or an
/// IPv6 address as a big-endian `u128`.
#[derive(Clone, Copy, Debug, PartialEq, Eq, Structural, Hash)]
pub enum PeerIp {
    V4(u32),
    V6(u128),
}

/// A socket address of a peer. Two addresses are equal when all their parts
/// are, the IPv6 flow information and scope identifier included.
#[derive(Clone, Copy, Debug, PartialEq, Eq, Structural, Hash)]
#[allow(inconsistent_fields)]
pub enum PeerAddr {
    V4 { ip: u32, port: u16 },
    V6 { ip: u128, port: u16, flowinfo: u32, scope_id: u32 },
}

/// The big-endian integer of four octets.
pub open spec fn octets_value(octets: [u8; 4]) -> int {
    octets[0] as int * 0x1000000 + octets[1] as int * 0x10000 + octets[2] as int * 0x100
        + octets[3] as int
}

impl PeerAddr {
    /// The IPv4 socket address `octets:port`.
    pub fn from_octets(octets: [u8; 4], port: u16) -> (addr: PeerAddr)
        ensures
            addr == (PeerAddr::V4 { ip: octets_value(octets) as u32, port }),
    {
        let ip: u32 = octets[0] as u32 * 0x1000000u32 + octets[1] as u32 * 0x10000u32
            + octets[2] as u32 * 0x100u32 + octets[3] as u32;
        PeerAddr::V4 { ip, port }
    }

    /// The IP address of the peer, without its port.
    pub open spec fn spec_ip(self) -> PeerIp {
        match self {
            PeerAddr::V4 { ip, .. } => PeerIp::V4(ip),
            PeerAddr::V6 { ip, .. } => PeerIp::V6(ip),
        }
    }

    /// The IP address of the peer, without its port.
    pub fn ip(&self) -> (ip: PeerIp)
        ensures
            ip == self.spec_ip(),
    {
        match self {
            PeerAddr::V4 { ip, .. } => PeerIp::V4(*ip),
            PeerAddr::V6 { ip, .. } => PeerIp::V6(*ip),
        }
    }

    /// The port of the peer.
    pub fn port(&self) -> (port: u16)
        ensures
            port == match *self {
                PeerAddr::V4 { port, .. } => port,
                PeerAddr::V6 { port, .. } => port,
            },
    {
        match self {
            PeerAddr::V4 { port, .. } => *port,
            PeerAddr::V6 { port, .. } => *port,
        }
    }
}

/// A copy of a list of peers.
pub fn copy_peers(peers: &Vec<PeerAddr>) -> (copy: Vec<PeerAddr>)
    ensures
        copy@ == peers@,
{
    let mut copy: Vec<PeerAddr> = Vec::new();
    let mut i: usize = 0;
    while i < peers.len()
        invariant
            i <= peers.len(),
            copy@ == peers@.subrange(0, i as int),
        decreases peers.len() - i,
    {
        copy.push(peers[i]);
        i = i + 1;
    }
    assert(copy@ == peers@.subrange(0, peers.len() as int));
    copy
}

} // verus!
