//! Clients over TCP: the same datagrams as over UDP, each behind its length in four bytes.
//!
//! Every connection stands for one client at a made-up address, so that everything behind the
//! transport is the same.

use vstd::prelude::*;

use crate::addr::PeerAddr;
use crate::wire::{self, get_u32, put_bytes, put_u32};

verus! {

/// The made-up address of TCP clients: 127.0.0.2.
pub const VIRTUAL_IP: u32 = 0x7F00_0002;

/// The longest datagram that is read.
pub const MAX_PACKET: usize = 65535;

/// The bytes of the length in front of a datagram.
pub const LEN_BYTES: usize = 4;

/// Whether an address is that of a TCP client.
pub fn is_virtual_peer(peer: PeerAddr) -> (r: bool)
    ensures
        r == (peer matches PeerAddr::V4 { ip, .. } && ip == VIRTUAL_IP),
{
    match peer {
        PeerAddr::V4 { ip, .. } => ip == VIRTUAL_IP,
        _ => false,
    }
}

/// The address of the client on connection `port`.
pub fn virtual_peer(port: u16) -> (p: PeerAddr)
    ensures
        p == (PeerAddr::V4 { ip: VIRTUAL_IP, port }),
{
    PeerAddr::V4 { ip: VIRTUAL_IP, port }
}

/// A datagram behind its length; the length is cut to 32 bits.
pub open spec fn prefixed(packet: Seq<u8>) -> Seq<u8> {
    wire::le_bytes(packet.len() % 0x1_0000_0000, 4) + packet
}

/// The length that four bytes announce; `None` for one that no datagram may have.
pub open spec fn announced(head: Seq<u8>) -> Option<nat> {
    let len = wire::le_value(head);
    if len == 0 || len > MAX_PACKET {
        None
    } else {
        Some(len)
    }
}

/// A datagram behind its length.
pub fn prefix_packet(packet: &[u8]) -> (out: Vec<u8>)
    ensures
        out@ == prefixed(packet@),
{
    let mut out: Vec<u8> = Vec::new();
    let len: u64 = packet.len() as u64;
    assert(len as u32 == len % 0x1_0000_0000) by (bit_vector);
    put_u32(&mut out, len as u32);
    put_bytes(&mut out, packet);
    assert(out@ =~= prefixed(packet@));
    out
}

/// The length that four bytes announce; with `None` the connection is to be closed.
pub fn packet_len(head: &[u8; 4]) -> (r: Option<usize>)
    ensures
        match announced(head@) {
            Some(len) => r == Some(len as usize),
            None => r is None,
        },
{
    let len: usize = get_u32(head, 0) as usize;
    assert(head@.subrange(0, 4) =~= head@);
    if len == 0 || len > MAX_PACKET {
        None
    } else {
        Some(len)
    }
}

/// What was written is read: the first four bytes announce the length of what follows.
pub proof fn packets_survive(packet: Seq<u8>)
    requires
        0 < packet.len() <= MAX_PACKET,
    ensures
        announced(prefixed(packet).take(4)) == Some(packet.len()),
        prefixed(packet).skip(4) == packet,
{
    wire::pow256_values();
    wire::le_bytes_len(packet.len(), 4);
    wire::le_value_of_le_bytes(packet.len(), 4);
    assert(prefixed(packet).take(4) =~= wire::le_bytes(packet.len(), 4));
    assert(prefixed(packet).skip(4) =~= packet);
}

} // verus!
