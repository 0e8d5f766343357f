//! Wire formats: constants, client datagrams, link frames and TLV messages.
//!
//! Nothing here performs I/O. Every decoder is total: it answers any byte string with a value
//! or an error.

pub mod datagram;
pub mod datapack;
pub mod frame;
pub mod layout;
pub mod message;
pub mod types;

pub use datagram::{handshake_header, DatagramHeader, FrameRef, HEADER_LEN};
pub use datapack::DataPack;
pub use frame::{Frame, FRAME_HEADER_LEN};
pub use message::Message;
