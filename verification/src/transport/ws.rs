//! Clients over WebSocket: every binary message is one datagram.
//!
//! Every connection stands for one client at a made-up address, so that everything behind the
//! transport is the same.

use vstd::prelude::*;

use crate::addr::PeerAddr;

verus! {

/// The made-up address of WebSocket clients: 127.0.0.3.
pub const VIRTUAL_IP: u32 = 0x7F00_0003;

/// Whether an address is that of a WebSocket client.
pub fn is_virtual_peer(peer: PeerAddr) -> (r: bool)
    ensures
        r == (peer matches PeerAddr::V4 { ip, .. } && ip == VIRTUAL_IP),
{
    match peer {
        PeerAddr::V4 { ip, .. } => ip == VIRTUAL_IP,
        _ => false,
    }
}

/// The address of the client on connection `port`.
pub fn virtual_peer(port: u16) -> (p: PeerAddr)
    ensures
        p == (PeerAddr::V4 { ip: VIRTUAL_IP, port }),
{
    PeerAddr::V4 { ip: VIRTUAL_IP, port }
}

} // verus!
