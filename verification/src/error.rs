//! The one error type of the library.
//!
//! Every parse path answers a malformed input with an `Err`; none of them panics.

use vstd::prelude::*;

verus! {

/// What is wrong with a datagram, a frame or a request that breaks the protocol.
#[derive(Debug, Clone, Copy, PartialEq, Eq, Structural)]
pub enum ProtocolError {
    /// The header carries another protocol version.
    BadVersion { version: u8 },
    /// The first two bytes are not the magic number.
    BadMagic { magic: u16 },
    /// Fewer bytes than a datagram header.
    DatagramTooShort { len: usize },
    /// More bytes than one datagram may hold.
    DatagramOverMtu { len: usize },
    /// Fewer bytes are left than a message frame header takes.
    FrameHeaderTruncated { left: usize },
    /// A message frame announces more bytes than are left.
    FrameBodyTruncated { len: usize, left: usize },
    /// A channel number above 3.
    BadChannel { ch: u8 },
    /// A message id that does not fit in 12 bits.
    BadMsgId { msg_id: u16 },
    /// A length that no machine integer can hold.
    LengthOverflow,
    /// A link frame body above the limit.
    FrameTooLong { len: usize },
    /// A link frame of a type that the protocol does not define.
    BadFrameType { ty: u8 },
    /// A link frame body too short for its type.
    BodyTooShort,
    /// A token that reaches past the end of its body.
    TokenTruncated,
    /// The link's read buffer has outgrown the largest frame.
    StreamOverflow,
    /// A fragment body shorter than its header.
    FragmentTooShort,
    /// A fragment whose number or group size is out of range.
    BadFragment { frag_no: u8, total: u8 },
    /// A retransmission queue is full.
    RetransmitOverflow,
}

/// An error of the engine.
#[derive(Debug, Clone, PartialEq, Eq)]
pub enum Error {
    /// An I/O operation failed; the text is the system's.
    Io(String),
    /// The task at the other end of a channel is gone.
    Send(String),
    /// The input breaks the protocol.
    Protocol(ProtocolError),
    /// No live session has this id.
    SessionNotFound(u64),
    /// A channel is closed.
    Closed(String),
    /// The configuration is invalid.
    Config(String),
}

/// The result type of the library.
pub type Result<T> = std::result::Result<T, Error>;

} // verus!
