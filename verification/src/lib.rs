//! A game-agnostic real-time battle server engine.
//!
//! Every rule of the engine that is not a system call lives here as verified code: the wire
//! formats, the reliable layer, the session table with its handshake and life cycle, the
//! buffer pool, the metrics, and the decisions that tie them together. Sockets, timers and
//! tasks belong to the embedding program, which hands this library plain values and carries
//! out what it answers.

pub mod addr;
pub mod buffer;
pub mod client;
pub mod collections;
pub mod engine;
pub mod error;
pub mod outside;
pub mod protocol;
pub mod reliable;
pub mod routing;
pub mod session;
pub mod stats;
pub mod transport;
pub mod wire;

pub use addr::PeerAddr;
pub use buffer::BufferPool;
pub use engine::EngineCore;
pub use error::{Error, ProtocolError, Result};
pub use session::table::SessionTable;
pub use stats::Stats;
