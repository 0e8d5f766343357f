//! The session table: who is connected, who is shaking hands, and what happens to them.
//!
//! Sessions are found by connection id, so that a peer may change its address. Malformed input
//! is counted and dropped; it never stops the engine.

pub mod budget;
pub mod incoming;
pub mod laws;
pub mod lifecycle;
pub mod maintain;
pub mod outgoing;
pub mod plan;
pub mod receive;
pub mod send;

use vstd::prelude::*;

use crate::addr::PeerAddr;
use crate::protocol::types::{
    Nanos, DEFAULT_SESSION_SHARDS, HANDSHAKE_TIMEOUT, IDLE_GRACE, RECONNECT_GRACE, RECONNECT_MAX,
    RECONNECT_MIN, TIMEOUT_MAX, TIMEOUT_MIN,
};
use crate::session::handshake::{Challenge, Handshakes};
use crate::session::peer::{self, SessionData};
use crate::session::store::SessionStore;
use crate::stats::{self, Stats, StatsSnapshot};

verus! {

/// The configuration of a session table.
#[derive(Debug, Clone, Copy, PartialEq, Eq, Structural)]
pub struct SessionTableConfig {
    /// How many shards the sessions are spread over.
    pub shards: usize,
    /// How long a handshake may take.
    pub handshake_timeout: Nanos,
    /// How long an active session may stay silent, if that does not depend on the round trip.
    pub idle_grace: Nanos,
    /// How long the grace period is, if that does not depend on the round trip.
    pub reconnect_grace: Nanos,
    /// Whether datagrams carry an HMAC.
    pub enable_hmac: bool,
    /// Whether the two limits follow the session's round-trip time: thirty times the round trip
    /// for silence, a hundred and twenty times for the grace period, each between its bounds.
    pub dynamic_timeouts: bool,
    /// The shortest time of silence.
    pub timeout_min: Nanos,
    /// The longest time of silence.
    pub timeout_max: Nanos,
    /// The shortest grace period.
    pub reconnect_min: Nanos,
    /// The longest grace period.
    pub reconnect_max: Nanos,
}

impl Default for SessionTableConfig {
    fn default() -> (c: Self)
        ensures
            c == (SessionTableConfig {
                shards: DEFAULT_SESSION_SHARDS,
                handshake_timeout: HANDSHAKE_TIMEOUT,
                idle_grace: IDLE_GRACE,
                reconnect_grace: RECONNECT_GRACE,
                enable_hmac: true,
                dynamic_timeouts: true,
                timeout_min: TIMEOUT_MIN,
                timeout_max: TIMEOUT_MAX,
                reconnect_min: RECONNECT_MIN,
                reconnect_max: RECONNECT_MAX,
            }),
    {
        SessionTableConfig {
            shards: DEFAULT_SESSION_SHARDS,
            handshake_timeout: HANDSHAKE_TIMEOUT,
            idle_grace: IDLE_GRACE,
            reconnect_grace: RECONNECT_GRACE,
            enable_hmac: true,
            dynamic_timeouts: true,
            timeout_min: TIMEOUT_MIN,
            timeout_max: TIMEOUT_MAX,
            reconnect_min: RECONNECT_MIN,
            reconnect_max: RECONNECT_MAX,
        }
    }
}

/// The session table.
#[derive(Debug)]
pub struct SessionTable {
    store: SessionStore,
    pending: Handshakes,
    next_conn_id: u64,
    next_sess_id: u64,
    cfg: SessionTableConfig,
    /// The metrics.
    pub stats: Stats,
}

/// What a session table holds.
#[verifier::ext_equal]
pub struct TableData {
    /// The sessions by connection id.
    pub sessions: Map<u32, SessionData>,
    /// The handshakes under way.
    pub pending: Map<PeerAddr, Challenge>,
    pub next_conn_id: u64,
    pub next_sess_id: u64,
    pub cfg: SessionTableConfig,
    pub stats: StatsSnapshot,
}

impl View for SessionTable {
    type V = TableData;

    closed spec fn view(&self) -> TableData {
        TableData {
            sessions: self.store@,
            pending: self.pending@,
            next_conn_id: self.next_conn_id,
            next_sess_id: self.next_sess_id,
            cfg: self.cfg,
            stats: self.stats@,
        }
    }
}

/// What holds of every session table: a session stands under its connection id, no two sessions
/// share a session id, and ids that were not given out are not in use.
pub open spec fn table_wf(t: TableData) -> bool {
    &&& forall|k: u32| #[trigger]
        t.sessions.contains_key(k) ==> {
            &&& t.sessions[k].conn_id == k
            &&& t.sessions[k].sess_id < t.next_sess_id
            &&& peer::session_wf(t.sessions[k])
        }
    &&& forall|j: u32, k: u32| #[trigger]
        t.sessions.contains_key(j) && #[trigger] t.sessions.contains_key(k) && j != k
            ==> t.sessions[j].sess_id != t.sessions[k].sess_id
    &&& forall|p: PeerAddr| #[trigger] t.pending.contains_key(p) ==> t.pending[p].bytes.len() == 8
}

/// Whether there is a session id left to give out.
pub open spec fn ids_left(t: TableData) -> bool {
    t.next_sess_id < u64::MAX
}

/// A table without sessions.
pub open spec fn no_sessions(cfg: SessionTableConfig) -> TableData {
    TableData {
        sessions: Map::empty(),
        pending: Map::empty(),
        next_conn_id: 1,
        next_sess_id: 1,
        cfg,
        stats: stats::no_counts(),
    }
}

impl SessionTable {
    /// The table is sound inside, and `table_wf` holds of it.
    pub closed spec fn wf(&self) -> bool {
        &&& self.store.wf()
        &&& self.pending.wf()
        &&& table_wf(self@)
    }

    /// What a sound table holds is sound.
    pub proof fn wf_means(&self)
        requires
            self.wf(),
        ensures
            table_wf(self@),
    {
    }

    /// A table without sessions.
    pub fn new(cfg: SessionTableConfig) -> (t: Self)
        ensures
            t.wf(),
            t@ == no_sessions(cfg),
    {
        let t = SessionTable {
            store: SessionStore::new(cfg.shards),
            pending: Handshakes::new(),
            next_conn_id: 1,
            next_sess_id: 1,
            cfg,
            stats: Stats::new(),
        };
        assert(t@ =~= no_sessions(cfg));
        t
    }

    /// The number of sessions.
    pub fn active_count(&self) -> (n: usize)
        requires
            self.wf(),
        ensures
            self@.sessions.dom().finite(),
            self@.sessions.dom().len() <= usize::MAX ==> n == self@.sessions.dom().len(),
            self@.sessions.dom().len() > usize::MAX ==> n == usize::MAX,
    {
        self.store.len()
    }

    /// Whether there is a session id left to give out.
    pub fn has_ids_left(&self) -> (r: bool)
        ensures
            r == ids_left(self@),
    {
        self.next_sess_id < u64::MAX
    }
}

} // verus!
