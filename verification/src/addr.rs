//! The address of a peer, and the 18 bytes by which the link names it.

use vstd::prelude::*;

use crate::wire::{self, be_vec, get_be, get_u16};

verus! {

/// The length of an address on the link: 16 bytes of IP, 2 bytes of port.
pub const ADDR_LEN: usize = 18;

/// The address of a peer.
#[derive(Debug, Clone, Copy, PartialEq, Eq, Hash, Structural)]
#[allow(inconsistent_fields)]
pub enum PeerAddr {
    /// IPv4; `ip` is the address as a big-endian number.
    V4 { ip: u32, port: u16 },
    /// IPv6; `ip` is the address as a big-endian number.
    V6 { ip: u128, port: u16, flowinfo: u32, scope_id: u32 },
}

/// A run of `n` zero bytes.
pub open spec fn zeros(n: nat) -> Seq<u8> {
    Seq::new(n, |i: int| 0u8)
}

/// The link form of an address: the octets of the IP, an IPv4 one filled up with zeros, then the
/// port, low byte first.
pub open spec fn addr_bytes(addr: PeerAddr) -> Seq<u8> {
    match addr {
        PeerAddr::V4 { ip, port } => wire::be_bytes(ip as nat, 4) + zeros(12) + wire::le_bytes(port as nat, 2),
        PeerAddr::V6 { ip, port, .. } => wire::be_bytes(ip as nat, 16) + wire::le_bytes(port as nat, 2),
    }
}

/// The address that 18 bytes stand for: IPv4 if octets 4 to 15 are all zero.
pub open spec fn addr_of(s: Seq<u8>) -> PeerAddr {
    let port = wire::le_value(s.subrange(16, 18)) as u16;
    if s.subrange(4, 16) =~= zeros(12) {
        PeerAddr::V4 { ip: wire::be_value(s.take(4)) as u32, port }
    } else {
        PeerAddr::V6 { ip: wire::be_value(s.take(16)) as u128, port, flowinfo: 0, scope_id: 0 }
    }
}

/// Whether the link form tells the address apart from every other: an IPv6 address must not look
/// like a filled up IPv4 one, and its flow label and scope are not carried.
pub open spec fn has_link_form(addr: PeerAddr) -> bool {
    match addr {
        PeerAddr::V4 { .. } => true,
        PeerAddr::V6 { ip, flowinfo, scope_id, .. } => {
            &&& flowinfo == 0
            &&& scope_id == 0
            &&& wire::be_bytes(ip as nat, 16).subrange(4, 16) != zeros(12)
        },
    }
}

/// An address that has a link form is read back from it.
pub proof fn addr_survives_the_link(addr: PeerAddr)
    requires
        has_link_form(addr),
    ensures
        addr_bytes(addr).len() == ADDR_LEN,
        addr_of(addr_bytes(addr)) == addr,
{
    let s = addr_bytes(addr);
    addr_bytes_len(addr);
    wire::pow256_values();
    match addr {
        PeerAddr::V4 { ip, port } => {
            wire::le_bytes_len(ip as nat, 4);
            wire::le_bytes_len(port as nat, 2);
            assert(s.subrange(4, 16) =~= zeros(12));
            assert(s.take(4).reverse() =~= wire::le_bytes(ip as nat, 4));
            assert(s.subrange(16, 18) =~= wire::le_bytes(port as nat, 2));
            wire::le_value_of_le_bytes(ip as nat, 4);
            wire::le_value_of_le_bytes(port as nat, 2);
        },
        PeerAddr::V6 { ip, port, .. } => {
            wire::le_bytes_len(ip as nat, 16);
            wire::le_bytes_len(port as nat, 2);
            assert(s.subrange(4, 16) =~= wire::be_bytes(ip as nat, 16).subrange(4, 16));
            assert(s.take(16).reverse() =~= wire::le_bytes(ip as nat, 16));
            assert(s.subrange(16, 18) =~= wire::le_bytes(port as nat, 2));
            wire::le_value_of_le_bytes(ip as nat, 16);
            wire::le_value_of_le_bytes(port as nat, 2);
        },
    }
}

/// Every address takes 18 bytes.
pub proof fn addr_bytes_len(addr: PeerAddr)
    ensures
        addr_bytes(addr).len() == ADDR_LEN,
{
    match addr {
        PeerAddr::V4 { ip, port } => {
            wire::le_bytes_len(ip as nat, 4);
            wire::le_bytes_len(port as nat, 2);
        },
        PeerAddr::V6 { ip, port, .. } => {
            wire::le_bytes_len(ip as nat, 16);
            wire::le_bytes_len(port as nat, 2);
        },
    }
}

/// Writes `bytes` into `out`, starting at `at`.
fn fill(out: &mut [u8; 18], at: usize, bytes: &Vec<u8>)
    requires
        at + bytes@.len() <= 18,
    ensures
        final(out)@ == old(out)@.take(at as int) + bytes@ + old(out)@.skip(at + bytes@.len()),
{
    let ghost start = out@;
    let mut i: usize = 0;
    while i < bytes.len()
        invariant
            i <= bytes@.len(),
            at + bytes@.len() <= 18,
            start.len() == 18,
            out@ =~= start.take(at as int) + bytes@.take(i as int) + start.skip(at + i),
        decreases bytes@.len() - i,
    {
        out[at + i] = bytes[i];
        i = i + 1;
    }
}

/// The link form of an address.
pub fn encode_addr(addr: &PeerAddr) -> (out: [u8; ADDR_LEN])
    ensures
        out@ == addr_bytes(*addr),
{
    let mut out: [u8; 18] = [0u8; 18];
    proof {
        addr_bytes_len(*addr);
    }
    let mut low: Vec<u8> = Vec::new();
    match *addr {
        PeerAddr::V4 { ip, port } => {
            let octets = be_vec(ip as u128, 4);
            wire::put_u16(&mut low, port);
            proof {
                wire::le_bytes_len(ip as nat, 4);
                wire::le_bytes_len(port as nat, 2);
            }
            fill(&mut out, 0, &octets);
            fill(&mut out, 16, &low);
        },
        PeerAddr::V6 { ip, port, .. } => {
            let octets = be_vec(ip, 16);
            wire::put_u16(&mut low, port);
            proof {
                wire::le_bytes_len(ip as nat, 16);
                wire::le_bytes_len(port as nat, 2);
            }
            fill(&mut out, 0, &octets);
            fill(&mut out, 16, &low);
        },
    }
    assert(out@ =~= addr_bytes(*addr));
    out
}

/// The address that the first 18 bytes stand for; `None` if there are fewer.
pub fn decode_addr(bytes: &[u8]) -> (r: Option<PeerAddr>)
    ensures
        r == (if bytes@.len() < ADDR_LEN {
            None::<PeerAddr>
        } else {
            Some(addr_of(bytes@.take(18)))
        }),
{
    if bytes.len() < ADDR_LEN {
        return None;
    }
    let ghost s = bytes@.take(18);
    assert(s.subrange(16, 18) =~= bytes@.subrange(16, 18));
    assert(s.take(4) =~= bytes@.take(4));
    assert(s.take(16) =~= bytes@.take(16));
    let port: u16 = get_u16(bytes, 16);
    let mut i: usize = 4;
    while i < 16
        invariant
            4 <= i <= 16,
            bytes@.len() >= 18,
            s == bytes@.take(18),
            port == wire::le_value(s.subrange(16, 18)),
            s.take(16) == bytes@.take(16),
            forall|k: int| 4 <= k < i ==> bytes@[k] == 0,
        decreases 16 - i,
    {
        if bytes[i] != 0 {
            assert(s.subrange(4, 16)[i - 4] != zeros(12)[i - 4]);
            let ip: u128 = get_be(bytes, 16);
            return Some(PeerAddr::V6 { ip, port, flowinfo: 0, scope_id: 0 });
        }
        i = i + 1;
    }
    assert(s.subrange(4, 16) =~= zeros(12));
    let ip: u128 = get_be(bytes, 4);
    proof {
        wire::le_value_bound(bytes@.take(4).reverse());
        wire::pow256_values();
    }
    Some(PeerAddr::V4 { ip: ip as u32, port })
}

} // verus!
