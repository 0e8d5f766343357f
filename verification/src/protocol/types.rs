//! Protocol constants: magic numbers, flags, channels, frame types, time limits.

use vstd::prelude::*;

verus! {

/// A reading of the monotonic clock, or a span of it, in nanoseconds.
pub type Nanos = u64;

/// One millisecond.
pub const MILLISECOND: Nanos = 1_000_000;

/// One second.
pub const SECOND: Nanos = 1_000_000_000;

// Client datagrams.

/// The magic number of a datagram.
pub const MAGIC: u16 = 0x5A50;

/// The protocol version.
pub const VERSION: u8 = 1;

/// The largest datagram, in bytes.
pub const MTU: usize = 1200;

/// The datagram carries a fragment.
pub const FLAG_FRAGMENT: u8 = 1;

/// The datagram carries nothing but an acknowledgement.
pub const FLAG_PURE_ACK: u8 = 2;

/// The datagram belongs to the handshake.
pub const FLAG_HANDSHAKE: u8 = 4;

/// The datagram is encrypted (reserved).
pub const FLAG_ENCRYPTED: u8 = 8;

/// The datagram ends in a truncated HMAC.
pub const FLAG_HMAC: u8 = 16;

/// Channel 0: unreliable, unordered.
pub const CH_UNRELIABLE_UNORDERED: u8 = 0;

/// Channel 1: unreliable, only ever newer.
pub const CH_UNRELIABLE_SEQUENCED: u8 = 1;

/// Channel 2: reliable, in order, with fragmentation.
pub const CH_RELIABLE_ORDERED: u8 = 2;

/// Channel 3: reliable, in any order.
pub const CH_RELIABLE_UNORDERED: u8 = 3;

/// The bits of a message id.
pub const MSG_ID_MASK: u16 = 0x0FFF;

// Link frames, engine to logic server.

/// `version u16, caps u32`
pub const FRAME_ENGINE_HELLO: u8 = 0x30;

/// `sess_id u64, addr [u8; 18], token_len u16, token`
pub const FRAME_SESSION_OPEN: u8 = 0x01;

/// `sess_id u64, reason u8`
pub const FRAME_SESSION_CLOSE: u8 = 0x02;

/// `sess_id u64, gap_ms u32`
pub const FRAME_SESSION_RESUME: u8 = 0x03;

/// `sess_id u64, ch u8, msg_id u16, payload`
pub const FRAME_DATA_UP: u8 = 0x10;

/// `sess_id u64, rtt_ms u16, loss_permille u16, out_kbps u16`
pub const FRAME_SESSION_STATS: u8 = 0x20;

/// `dropped_up u32, dropped_down u32`
pub const FRAME_OVERLOAD: u8 = 0x2F;

// Link frames, logic server to engine.

/// `version u16, caps u32`
pub const FRAME_LOGIC_HELLO: u8 = 0x90;

/// `sess_id u64, ch u8, msg_id u16, payload`
pub const FRAME_SEND: u8 = 0x81;

/// `n u8, sess_id u64 (n times), ch u8, msg_id u16, payload`
pub const FRAME_MULTICAST: u8 = 0x82;

/// `sess_id u64, reason u8`
pub const FRAME_KICK: u8 = 0x83;

/// `sess_id u64, kbps u16`
pub const FRAME_SET_BUDGET: u8 = 0x84;

// Session life cycle.

/// A handshake without progress is forgotten after this long.
pub const HANDSHAKE_TIMEOUT: Nanos = 3_000_000_000;

/// An active session that stays silent this long enters the grace period.
pub const IDLE_GRACE: Nanos = 5_000_000_000;

/// A session is closed after this long in the grace period.
pub const RECONNECT_GRACE: Nanos = 20_000_000_000;

/// The time between heartbeats.
pub const HEARTBEAT_INTERVAL: Nanos = 1_000_000_000;

/// The shortest adaptive idle limit.
pub const TIMEOUT_MIN: Nanos = 1_500_000_000;

/// The longest adaptive idle limit.
pub const TIMEOUT_MAX: Nanos = 5_000_000_000;

/// The shortest adaptive grace period.
pub const RECONNECT_MIN: Nanos = 5_000_000_000;

/// The longest adaptive grace period.
pub const RECONNECT_MAX: Nanos = 20_000_000_000;

// Reliable layer.

/// The most packets that wait for an acknowledgement on one channel.
pub const RETRANSMIT_QUEUE_CAP: usize = 64;

/// The shortest retransmission timeout.
pub const RTO_MIN: Nanos = 50_000_000;

/// The longest retransmission timeout.
pub const RTO_MAX: Nanos = 1_000_000_000;

/// The heartbeat period.
pub const HEARTBEAT_PERIOD: Nanos = 1_000_000_000;

// Capacities.

/// The default number of session shards.
pub const DEFAULT_SESSION_SHARDS: usize = 8;

/// The depth of the queue towards the logic server.
pub const UP_QUEUE_CAP: usize = 4096;

/// The depth of a session's outbound queue.
pub const DOWN_QUEUE_CAP: usize = 1024;

/// The largest link frame body, in bytes.
pub const MAX_FRAME_BODY: u32 = 1_048_576;

} // verus!
