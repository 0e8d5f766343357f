//! Which transport reaches a client.

use vstd::prelude::*;

use crate::addr::PeerAddr;
use crate::transport::{tcp, ws};

verus! {

/// A transport towards clients.
#[derive(Debug, Clone, Copy, PartialEq, Eq, Structural)]
pub enum Outlet {
    Tcp,
    Ws,
    Udp,
}

/// The transport for a peer, given which of TCP and WebSocket there are: a made-up address goes
/// over the transport that made it up, as long as that is there; everything else over UDP.
pub open spec fn outlet_for(peer: PeerAddr, tcp: bool, ws: bool) -> Outlet {
    match peer {
        PeerAddr::V4 { ip, .. } => if ip == tcp::VIRTUAL_IP && tcp {
            Outlet::Tcp
        } else if ip == ws::VIRTUAL_IP && ws {
            Outlet::Ws
        } else {
            Outlet::Udp
        },
        PeerAddr::V6 { .. } => Outlet::Udp,
    }
}

/// The transport for a peer, given which of TCP and WebSocket there are.
pub fn outlet_of(peer: PeerAddr, tcp: bool, ws: bool) -> (o: Outlet)
    ensures
        o == outlet_for(peer, tcp, ws),
{
    if tcp && tcp::is_virtual_peer(peer) {
        Outlet::Tcp
    } else if ws && ws::is_virtual_peer(peer) {
        Outlet::Ws
    } else {
        Outlet::Udp
    }
}

/// Clients of TCP and WebSocket are reached over the connection they came by, as long as it is
/// served; everybody else, on any port, over UDP.
pub proof fn clients_are_reached_the_way_they_came(ip: u32, port: u16, tcp: bool, ws: bool)
    ensures
        ({
            let o = outlet_for(PeerAddr::V4 { ip, port }, tcp, ws);
            &&& o == Outlet::Tcp <==> tcp && ip == 0x7F00_0002
            &&& o == Outlet::Ws <==> ws && ip == 0x7F00_0003
            &&& o == Outlet::Udp <==> !(tcp && ip == 0x7F00_0002) && !(ws && ip == 0x7F00_0003)
        }),
        forall|v6: PeerAddr| v6 is V6 ==> #[trigger] outlet_for(v6, tcp, ws) == Outlet::Udp,
{
}

} // verus!
