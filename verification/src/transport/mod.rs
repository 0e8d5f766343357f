//! What the transports decide, apart from the I/O itself.

pub mod netem;
pub mod outlet;
pub mod tcp;
pub mod uds;
pub mod ws;
