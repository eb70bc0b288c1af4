//! Fixed addresses, ports and sizes shared by the daemon and the client.

use vstd::prelude::*;

verus! {

/// Host name on which the daemon listens for its local client.
pub const LOCALHOST: &'static str = "localhost";

/// The unspecified IPv4 address `0.0.0.0`, as octets.
pub const LOCAL_NETWORK: [u8; 4] = [0u8, 0u8, 0u8, 0u8];

/// The multicast group `224.0.0.123` that daemons join, as octets.
pub const DAEMON_MULTICAST_ADDR: [u8; 4] = [224u8, 0u8, 0u8, 123u8];

/// UDP port of the multicast scan requests.
pub const PORT_MULTICAST: u16 = 7645;

/// TCP port on which the daemon serves its local client.
pub const PORT_CLIENT_DAEMON: u16 = 7646;

/// TCP port on which a daemon collects the answers to its scan.
pub const PORT_SCAN_TCP: u16 = 7647;

/// TCP port on which a daemon serves file blocks to other daemons.
pub const PORT_FILE_SHARE: u16 = 7648;

/// UDP port of the probe by which a daemon learns its own address.
pub const PORT_SELF_IP: u16 = 60005;

/// The datagram of a scan request: the bytes of `UDP_Scan_Request_P2P`.
pub const SCAN_REQUEST: [u8; 20] = [
    85u8, 68u8, 80u8, 95u8, 83u8, 99u8, 97u8, 110u8, 95u8, 82u8, 101u8, 113u8, 117u8, 101u8, 115u8,
    116u8, 95u8, 80u8, 50u8, 80u8,
];

/// Size in bytes of one block of a transferred file.
pub const CHUNK_SIZE: usize = 4096;

} // verus!
