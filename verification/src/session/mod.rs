//! Sessions: their life cycle, and the handshake that opens them.
//!
//! ```text
//! [*] --> shaking hands: first packet
//! shaking hands --> active: conn_id and sess_id are given out, SessionOpen
//! shaking hands --> [*]: time-out
//! active --> active: traffic; a new address is followed
//! active --> grace: nothing received for a while
//! grace --> active: a packet with the old conn_id, SessionResume
//! grace --> [*]: the grace period is over, SessionClose
//! active --> [*]: kicked, SessionClose
//! ```
//!
//! Nothing is closed during the grace period: short gaps are normal on mobile networks.

pub mod channels;
pub mod event;
pub mod handshake;
pub mod inbound;
pub mod ordering;
pub mod peer;
pub mod seal;
pub mod store;
pub mod table;
pub mod window;

pub use event::SessionEvent;
pub use peer::Session;
pub use seal::hmac4;
pub use table::{SessionTable, SessionTableConfig};
