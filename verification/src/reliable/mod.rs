//! The reliable layer: retransmission, round-trip estimation, fragmentation.

pub mod fragment;
pub mod retransmit;
pub mod rtt;
pub mod serial;
