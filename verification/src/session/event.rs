//! What the session table tells the engine.

use vstd::prelude::*;

use crate::addr::PeerAddr;

verus! {

/// The grace period ran out.
pub const CLOSE_GRACE_TIMEOUT: u8 = 1;

/// The session was kicked.
pub const CLOSE_KICKED: u8 = 2;

/// Too many packets waited for an acknowledgement.
pub const CLOSE_OVERFLOW: u8 = 3;

/// The engine shuts down.
pub const CLOSE_SHUTDOWN: u8 = 4;

/// An event, to be passed on to the logic server.
#[derive(Debug, Clone, PartialEq, Eq)]
pub enum SessionEvent {
    /// A handshake is complete; the session is new.
    Open { sess_id: u64, peer: PeerAddr, token: Vec<u8> },
    /// The session is over.
    Close { sess_id: u64, reason: u8 },
    /// The session is back after a gap.
    Resume { sess_id: u64, gap_ms: u32 },
    /// A message that its channel has delivered.
    Data { sess_id: u64, ch: u8, msg_id: u16, payload: Vec<u8> },
}

/// What an event says.
#[verifier::ext_equal]
pub enum Event {
    Open { sess_id: u64, peer: PeerAddr, token: Seq<u8> },
    Close { sess_id: u64, reason: u8 },
    Resume { sess_id: u64, gap_ms: u32 },
    Data { sess_id: u64, ch: u8, msg_id: u16, payload: Seq<u8> },
}

impl View for SessionEvent {
    type V = Event;

    open spec fn view(&self) -> Event {
        match self {
            SessionEvent::Open { sess_id, peer, token } => Event::Open {
                sess_id: *sess_id,
                peer: *peer,
                token: token@,
            },
            SessionEvent::Close { sess_id, reason } => Event::Close {
                sess_id: *sess_id,
                reason: *reason,
            },
            SessionEvent::Resume { sess_id, gap_ms } => Event::Resume {
                sess_id: *sess_id,
                gap_ms: *gap_ms,
            },
            SessionEvent::Data { sess_id, ch, msg_id, payload } => Event::Data {
                sess_id: *sess_id,
                ch: *ch,
                msg_id: *msg_id,
                payload: payload@,
            },
        }
    }
}

/// What a list of events says.
pub open spec fn events_view(v: Seq<SessionEvent>) -> Seq<Event> {
    v.map_values(|e: SessionEvent| e@)
}

} // verus!
