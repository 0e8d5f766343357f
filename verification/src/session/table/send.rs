//! What the logic server asks of a session: look it up, send to it, limit it, kick it.

use std::collections::VecDeque;
use vstd::prelude::*;

use crate::addr::PeerAddr;
use crate::error::{Error, ProtocolError, Result};
use crate::protocol::datagram::{self, DatagramHeader, FrameRef, FrameView};
use crate::protocol::types::{
    Nanos, CH_RELIABLE_ORDERED, CH_RELIABLE_UNORDERED, FLAG_FRAGMENT, FLAG_HMAC,
    MTU, RETRANSMIT_QUEUE_CAP, SECOND, VERSION,
};
use crate::reliable::fragment::{self, FRAGMENT_THRESHOLD};
use crate::reliable::retransmit::{self, Pending};
use crate::reliable::serial::{self, seq_next};
use crate::session::peer::{self, Session, SessionData, SessionState};
use crate::session::seal;
use crate::session::table::{self, SessionTable, SessionTableConfig, TableData};
use crate::stats::{self, StatsSnapshot};
use crate::wire;

verus! {

/// Whether connection `k` is that of session `sess_id`.
pub open spec fn is_conn_of(t: TableData, sess_id: u64, k: u32) -> bool {
    t.sessions.contains_key(k) && t.sessions[k].sess_id == sess_id
}

/// The connection of session `sess_id`.
pub open spec fn conn_of(t: TableData, sess_id: u64) -> Option<u32> {
    if exists|k: u32| is_conn_of(t, sess_id, k) {
        Some(choose|k: u32| is_conn_of(t, sess_id, k))
    } else {
        None
    }
}

/// A session has one connection.
pub proof fn conn_is_unique(t: TableData, sess_id: u64, k: u32)
    requires
        table::table_wf(t),
        is_conn_of(t, sess_id, k),
    ensures
        conn_of(t, sess_id) == Some(k),
{
    let j = choose|j: u32| is_conn_of(t, sess_id, j);
    assert(is_conn_of(t, sess_id, j));
}

/// A session that is replaced by one with the same ids leaves the table sound.
pub proof fn update_keeps_wf(t: TableData, k: u32, s: SessionData)
    requires
        table::table_wf(t),
        t.sessions.contains_key(k),
        s.conn_id == k,
        s.sess_id == t.sessions[k].sess_id,
        peer::session_wf(s),
    ensures
        table::table_wf(TableData { sessions: t.sessions.insert(k, s), ..t }),
{
}

// The budget.

/// What was sent less than a second ago, as far back as it goes without a gap.
pub open spec fn recent(w: Seq<(Nanos, u64)>, now: Nanos) -> Seq<(Nanos, u64)>
    decreases w.len(),
{
    if w.len() > 0 && retransmit::elapsed(now, w[0].0) >= SECOND {
        recent(w.skip(1), now)
    } else {
        w
    }
}

/// Whether a session may send `bytes`, and the session afterwards. Without a budget it may; with
/// one, if what it sent in the last second stays within it. What it may send counts as sent.
pub open spec fn budgeted(s: SessionData, bytes: u64, now: Nanos) -> (SessionData, bool) {
    match s.budget_kbps {
        None => (s, true),
        Some(kbps) => {
            let w = recent(s.bytes_window, now);
            if peer::window_sum(w) + bytes > kbps as nat * 125 {
                (SessionData { bytes_window: w, ..s }, false)
            } else {
                (SessionData { bytes_window: w.push((now, bytes)), ..s }, true)
            }
        },
    }
}

/// The oldest entry can be taken out of a sum.
proof fn window_sum_front(w: Seq<(Nanos, u64)>)
    requires
        w.len() > 0,
    ensures
        peer::window_sum(w) == w[0].1 as nat + peer::window_sum(w.skip(1)),
    decreases w.len(),
{
    if w.len() > 1 {
        window_sum_front(w.drop_last());
        assert(w.drop_last().skip(1) =~= w.skip(1).drop_last());
    } else {
        reveal_with_fuel(peer::window_sum, 2);
        assert(w.drop_last() =~= w.skip(1));
    }
}

/// What is recent is no more than what there was.
pub proof fn recent_sum(w: Seq<(Nanos, u64)>, now: Nanos)
    ensures
        peer::window_sum(recent(w, now)) <= peer::window_sum(w),
    decreases w.len(),
{
    if w.len() > 0 && retransmit::elapsed(now, w[0].0) >= SECOND {
        recent_sum(w.skip(1), now);
        window_sum_front(w);
    }
}

/// Drops what is no longer recent.
fn prune_window(w: &mut VecDeque<(Nanos, u64)>, now: Nanos)
    ensures
        final(w)@ == recent(old(w)@, now),
{
    let ghost w0 = w@;
    while w.len() > 0 && now.saturating_sub(w[0].0) >= SECOND
        invariant
            recent(w@, now) == recent(w0, now),
        decreases w@.len(),
    {
        let ghost before = w@;
        let _oldest = w.pop_front();
        assert(w@ =~= before.skip(1));
    }
}

/// The bytes in a window.
fn sum_window(w: &VecDeque<(Nanos, u64)>) -> (sum: u64)
    requires
        peer::window_sum(w@) <= u64::MAX,
    ensures
        sum == peer::window_sum(w@),
{
    let mut sum: u64 = 0;
    let mut i: usize = w.len();
    assert(w@.take(w@.len() as int) =~= w@);
    while i > 0
        invariant
            i <= w@.len(),
            sum + peer::window_sum(w@.take(i as int)) == peer::window_sum(w@),
            peer::window_sum(w@) <= u64::MAX,
        decreases i,
    {
        assert(w@.take(i as int).drop_last() =~= w@.take(i - 1));
        i = i - 1;
        sum = sum + w[i].1;
    }
    sum
}

impl Session {
    /// Whether the session may send `bytes`.
    pub fn check_budget(&mut self, bytes: u64, now: Nanos) -> (r: bool)
        requires
            peer::session_wf(old(self)@),
        ensures
            (final(self)@, r) == budgeted(old(self)@, bytes, now),
            peer::session_wf(final(self)@),
    {
        let ghost s = self@;
        match self.budget_kbps {
            None => true,
            Some(kbps) => {
                proof {
                    recent_sum(s.bytes_window, now);
                }
                prune_window(&mut self.bytes_window, now);
                assert(self@ =~= (SessionData { bytes_window: recent(s.bytes_window, now), ..s }));
                let used: u64 = sum_window(&self.bytes_window);
                let budget: u64 = kbps as u64 * 125;
                if bytes > budget || used > budget - bytes {
                    return false;
                }
                let ghost w = self.bytes_window@;
                self.bytes_window.push_back((now, bytes));
                assert(self.bytes_window@ =~= w.push((now, bytes)));
                assert(w.push((now, bytes)).drop_last() =~= w);
                assert(self@ =~= (SessionData { bytes_window: w.push((now, bytes)), ..s }));
                true
            },
        }
    }
}

impl SessionTable {
    /// The connection of a session.
    fn conn_id_of(&self, sess_id: u64) -> (r: Option<u32>)
        requires
            self.wf(),
        ensures
            r == conn_of(self@, sess_id),
            r matches Some(k) ==> is_conn_of(self@, sess_id, k),
    {
        let r = self.store.find(sess_id);
        proof {
            match r {
                Some(k) => {
                    conn_is_unique(self@, sess_id, k);
                },
                None => {
                    assert forall|k: u32| !is_conn_of(self@, sess_id, k) by {}
                },
            }
        }
        r
    }

    /// A session, by its id.
    pub fn lookup(&self, sess_id: u64) -> (r: Option<&Session>)
        requires
            self.wf(),
        ensures
            match conn_of(self@, sess_id) {
                Some(k) => r matches Some(s) && s@ == self@.sessions[k] && s@.sess_id == sess_id,
                None => r is None,
            },
    {
        match self.conn_id_of(sess_id) {
            Some(k) => self.store.get(k),
            None => None,
        }
    }

    /// Whether traffic flows in a session.
    pub fn is_active(&self, sess_id: u64) -> (r: bool)
        requires
            self.wf(),
        ensures
            r == (conn_of(self@, sess_id) matches Some(k) && self@.sessions[k].state
                == SessionState::Active),
    {
        match self.lookup(sess_id) {
            Some(s) => s.is_active(),
            None => false,
        }
    }

    /// Ends a session and returns it.
    pub fn kick(&mut self, sess_id: u64, _reason: u8) -> (r: Option<Session>)
        requires
            old(self).wf(),
        ensures
            final(self).wf(),
            final(self)@ == kicked(old(self)@, sess_id),
            match conn_of(old(self)@, sess_id) {
                Some(k) => r matches Some(s) && s@ == old(self)@.sessions[k],
                None => r is None,
            },
    {
        let ghost t = self@;
        match self.conn_id_of(sess_id) {
            Some(k) => {
                let s = self.store.take(k);
                self.stats.sessions_active.decr();
                assert(self@ =~= closed(t, k));
                s
            },
            None => None,
        }
    }

    /// Limits the bandwidth of a session.
    pub fn set_budget(&mut self, sess_id: u64, kbps: u16)
        requires
            old(self).wf(),
        ensures
            final(self).wf(),
            final(self)@ == budget_set(old(self)@, sess_id, kbps),
    {
        let ghost t = self@;
        match self.conn_id_of(sess_id) {
            Some(k) => {
                match self.store.take(k) {
                    Some(taken) => {
                        let mut s = taken;
                        s.budget_kbps = Some(kbps);
                        let ghost after = SessionData { budget_kbps: Some(kbps), ..t.sessions[k] };
                        assert(s@ =~= after);
                        proof {
                            update_keeps_wf(t, k, after);
                        }
                        self.store.put(k, s);
                        assert(self@ =~= with_session(t, k, after));
                    },
                    None => {},
                }
            },
            None => {},
        }
    }

    /// Whether a session may send `bytes`; one that is not there may.
    pub fn check_budget(&mut self, sess_id: u64, bytes: u64, now: Nanos) -> (r: bool)
        requires
            old(self).wf(),
        ensures
            final(self).wf(),
            (final(self)@, r) == budget_checked(old(self)@, sess_id, bytes, now),
    {
        let ghost t = self@;
        match self.conn_id_of(sess_id) {
            Some(k) => {
                match self.store.take(k) {
                    Some(taken) => {
                        let mut s = taken;
                        let ok: bool = s.check_budget(bytes, now);
                        let ghost after = s@;
                        proof {
                            update_keeps_wf(t, k, after);
                        }
                        self.store.put(k, s);
                        assert(self@ =~= with_session(t, k, after));
                        ok
                    },
                    None => true,
                }
            },
            None => true,
        }
    }
}

/// The table with one session changed.
pub open spec fn with_session(t: TableData, k: u32, s: SessionData) -> TableData {
    TableData { sessions: t.sessions.insert(k, s), ..t }
}

/// The table with one session gone.
pub open spec fn closed(t: TableData, k: u32) -> TableData {
    TableData {
        sessions: t.sessions.remove(k),
        stats: StatsSnapshot {
            sessions_active: stats::count_less_one(t.stats.sessions_active),
            ..t.stats
        },
        ..t
    }
}

/// The table after a session was kicked.
pub open spec fn kicked(t: TableData, sess_id: u64) -> TableData {
    match conn_of(t, sess_id) {
        Some(k) => closed(t, k),
        None => t,
    }
}

/// The table after the bandwidth of a session was limited.
pub open spec fn budget_set(t: TableData, sess_id: u64, kbps: u16) -> TableData {
    match conn_of(t, sess_id) {
        Some(k) => with_session(
            t,
            k,
            SessionData { budget_kbps: Some(kbps), ..t.sessions[k] },
        ),
        None => t,
    }
}

/// Whether a session may send `bytes`, and the table afterwards; one that is not there may.
pub open spec fn budget_checked(t: TableData, sess_id: u64, bytes: u64, now: Nanos) -> (TableData, bool) {
    match conn_of(t, sess_id) {
        Some(k) => {
            let (s, ok) = budgeted(t.sessions[k], bytes, now);
            (with_session(t, k, s), ok)
        },
        None => (t, true),
    }
}

// Sending.

/// The header of a datagram to a client.
pub open spec fn out_header(cfg: SessionTableConfig, s: SessionData, seq: u16, fragment: bool) -> DatagramHeader {
    let hmac = if cfg.enable_hmac {
        FLAG_HMAC
    } else {
        0
    };
    DatagramHeader {
        version: VERSION,
        flags: if fragment {
            FLAG_FRAGMENT | hmac
        } else {
            hmac
        },
        conn_id: s.conn_id,
        seq,
        ack: peer::ack_of(s),
        ack_bits: peer::ack_bits_of(s),
    }
}

/// The bytes of a datagram to a client, with its HMAC if there is one.
pub open spec fn out_bytes(
    cfg: SessionTableConfig,
    s: SessionData,
    seq: u16,
    fragment: bool,
    f: FrameView,
) -> Seq<u8> {
    let bytes = datagram::datagram_bytes(out_header(cfg, s, seq, fragment), seq![f]);
    if cfg.enable_hmac {
        seal::sealed(s.secret, bytes)
    } else {
        bytes
    }
}

/// Why a frame cannot be sent in one datagram, if there is a reason: it cannot be encoded, or its
/// datagram is longer than one may be once the HMAC is behind it.
pub open spec fn out_fault(cfg: SessionTableConfig, h: DatagramHeader, f: FrameView) -> Option<
    ProtocolError,
> {
    match datagram::encode_fault(h, seq![f]) {
        Some(fault) => Some(fault),
        None => {
            let len = datagram::datagram_bytes(h, seq![f]).len() + seal::HMAC_LEN;
            if cfg.enable_hmac && len > MTU {
                Some(ProtocolError::DatagramOverMtu { len: len as usize })
            } else {
                None
            }
        },
    }
}

/// What sending leads to.
pub enum Sent {
    /// The datagrams go to the peer, and the session is as given.
    Done { session: SessionData, datagrams: Seq<Seq<u8>> },
    /// The message cannot be sent; the session is as given.
    Refused { session: SessionData, fault: ProtocolError },
    /// Too many packets wait for an acknowledgement; the session is over.
    Overflow,
}

/// Whether a channel waits for acknowledgements.
pub open spec fn is_reliable(ch: u8) -> bool {
    ch == CH_RELIABLE_ORDERED || ch == CH_RELIABLE_UNORDERED
}

/// A message in one datagram. The sequence number is used up even if it is refused.
pub open spec fn sent_whole(
    cfg: SessionTableConfig,
    s: SessionData,
    f: FrameView,
    now: Nanos,
) -> Sent {
    let after = SessionData { send_seq: serial::seq_plus(s.send_seq, 1), ..s };
    let bytes = out_bytes(cfg, s, s.send_seq, false, f);
    let waiting = Pending { seq: s.send_seq, sent_at: now, datagram: bytes };
    match out_fault(cfg, out_header(cfg, s, s.send_seq, false), f) {
        Some(fault) => Sent::Refused { session: after, fault },
        None => if f.ch == CH_RELIABLE_ORDERED {
            if s.retrans_ordered.len() >= RETRANSMIT_QUEUE_CAP {
                Sent::Overflow
            } else {
                Sent::Done {
                    session: SessionData {
                        retrans_ordered: s.retrans_ordered.push(waiting),
                        ..after
                    },
                    datagrams: seq![bytes],
                }
            }
        } else if f.ch == CH_RELIABLE_UNORDERED {
            if s.retrans_unordered.len() >= RETRANSMIT_QUEUE_CAP {
                Sent::Overflow
            } else {
                Sent::Done {
                    session: SessionData {
                        retrans_unordered: s.retrans_unordered.push(waiting),
                        ..after
                    },
                    datagrams: seq![bytes],
                }
            }
        } else {
            Sent::Done { session: after, datagrams: seq![bytes] }
        },
    }
}

/// The datagrams of a message in fragments.
pub open spec fn fragment_datagrams(
    cfg: SessionTableConfig,
    s: SessionData,
    msg_id: u16,
    payload: Seq<u8>,
) -> Seq<Seq<u8>> {
    let parts = fragment::fragments(
        payload,
        s.frag_group_id,
        s.send_seq,
        FRAGMENT_THRESHOLD as nat,
    );
    Seq::new(
        parts.len(),
        |i: int|
            out_bytes(
                cfg,
                s,
                serial::seq_plus(s.send_seq, i),
                true,
                FrameView { ch: CH_RELIABLE_ORDERED, msg_id, body: parts[i] },
            ),
    )
}

/// The first `n` of some datagrams, as they wait for their acknowledgements.
pub open spec fn waiting(datagrams: Seq<Seq<u8>>, first_seq: u16, n: nat, now: Nanos) -> Seq<Pending> {
    Seq::new(
        n,
        |i: int|
            Pending {
                seq: serial::seq_plus(first_seq, i),
                sent_at: now,
                datagram: datagrams[i],
            },
    )
}

/// A message on channel 2 in fragments, each with a sequence number of its own.
pub open spec fn sent_in_fragments(
    cfg: SessionTableConfig,
    s: SessionData,
    msg_id: u16,
    payload: Seq<u8>,
    now: Nanos,
) -> Sent {
    let datagrams = fragment_datagrams(cfg, s, msg_id, payload);
    let n = datagrams.len();
    let group = serial::seq_plus(s.frag_group_id, 1);
    if msg_id > 0x0FFF {
        Sent::Refused {
            session: SessionData {
                send_seq: serial::seq_plus(s.send_seq, 1),
                frag_group_id: group,
                ..s
            },
            fault: ProtocolError::BadMsgId { msg_id },
        }
    } else if s.retrans_ordered.len() + n > RETRANSMIT_QUEUE_CAP {
        Sent::Overflow
    } else {
        Sent::Done {
            session: SessionData {
                send_seq: serial::seq_plus(s.send_seq, n as int),
                frag_group_id: group,
                retrans_ordered: s.retrans_ordered + waiting(datagrams, s.send_seq, n, now),
                ..s
            },
            datagrams,
        }
    }
}

/// Whether a message is sent in fragments: only channel 2 splits what is long.
pub open spec fn is_split(ch: u8, payload: Seq<u8>) -> bool {
    ch == CH_RELIABLE_ORDERED && payload.len() > FRAGMENT_THRESHOLD
}

/// A message to a session.
pub open spec fn sent(
    cfg: SessionTableConfig,
    s: SessionData,
    ch: u8,
    msg_id: u16,
    payload: Seq<u8>,
    now: Nanos,
) -> Sent {
    if is_split(ch, payload) {
        sent_in_fragments(cfg, s, msg_id, payload, now)
    } else {
        sent_whole(cfg, s, FrameView { ch, msg_id, body: payload }, now)
    }
}

/// The bytes in some datagrams.
pub open spec fn total_len(datagrams: Seq<(Seq<u8>, PeerAddr)>) -> nat
    decreases datagrams.len(),
{
    if datagrams.len() == 0 {
        0
    } else {
        total_len(datagrams.drop_last()) + datagrams.last().0.len()
    }
}

/// Datagrams with where they go.
pub open spec fn addressed(datagrams: Seq<Seq<u8>>, to: PeerAddr) -> Seq<(Seq<u8>, PeerAddr)> {
    datagrams.map_values(|d: Seq<u8>| (d, to))
}

/// What a list of datagrams is.
pub open spec fn datagrams_view(v: Seq<(Vec<u8>, PeerAddr)>) -> Seq<(Seq<u8>, PeerAddr)> {
    v.map_values(|d: (Vec<u8>, PeerAddr)| (d.0@, d.1))
}

/// What a message to a session id leads to: the table afterwards, and the datagrams.
pub open spec fn packed_out(
    t: TableData,
    sess_id: u64,
    ch: u8,
    msg_id: u16,
    payload: Seq<u8>,
    now: Nanos,
) -> (TableData, Result<Seq<(Seq<u8>, PeerAddr)>>) {
    if ch > 3 {
        (t, Err(Error::Protocol(ProtocolError::BadChannel { ch })))
    } else {
        match conn_of(t, sess_id) {
            None => (t, Err(Error::SessionNotFound(sess_id))),
            Some(k) => {
                let s = t.sessions[k];
                if s.state != SessionState::Active {
                    (t, Err(Error::SessionNotFound(sess_id)))
                } else {
                    match sent(t.cfg, s, ch, msg_id, payload, now) {
                        Sent::Refused { session, fault } => (
                            with_session(t, k, session),
                            Err(Error::Protocol(fault)),
                        ),
                        Sent::Overflow => (
                            closed(t, k),
                            Err(Error::Protocol(ProtocolError::RetransmitOverflow)),
                        ),
                        Sent::Done { session, datagrams } => (
                            TableData {
                                sessions: t.sessions.insert(k, session),
                                stats: StatsSnapshot {
                                    pkt_out: stats::count_sum(
                                        t.stats.pkt_out,
                                        datagrams.len() as u64,
                                    ),
                                    pkt_bytes_out: stats::count_sum(
                                        t.stats.pkt_bytes_out,
                                        total_len(addressed(datagrams, s.peer)) as u64,
                                    ),
                                    ..t.stats
                                },
                                ..t
                            },
                            Ok(addressed(datagrams, s.peer)),
                        ),
                    }
                }
            },
        }
    }
}

/// Builds a datagram to a client.
fn make_datagram(
    header: &DatagramHeader,
    secret: u64,
    cfg: &SessionTableConfig,
    ch: u8,
    msg_id: u16,
    body: &[u8],
) -> (r: Result<Vec<u8>>)
    ensures
        ({
            let f = FrameView { ch, msg_id, body: body@ };
            match out_fault(*cfg, *header, f) {
                Some(fault) => r == Err::<Vec<u8>, Error>(Error::Protocol(fault)),
                None => r matches Ok(v) && v@ == (if cfg.enable_hmac {
                    seal::sealed(secret, datagram::datagram_bytes(*header, seq![f]))
                } else {
                    datagram::datagram_bytes(*header, seq![f])
                }) && v@.len() <= MTU,
            }
        }),
{
    let mut frames: Vec<FrameRef> = Vec::new();
    frames.push(FrameRef::new(ch, msg_id, body));
    let ghost f = FrameView { ch, msg_id, body: body@ };
    assert(datagram::frame_views(frames@) =~= seq![f]);
    let mut bytes: Vec<u8> = Vec::new();
    match datagram::encode(header, frames.as_slice(), &mut bytes) {
        Err(e) => Err(e),
        Ok(_) => {
            assert(bytes@ =~= datagram::datagram_bytes(*header, seq![f]));
            proof {
                one_frame_fits(*header, f);
                seal::open_inverts_seal(secret, bytes@);
            }
            if cfg.enable_hmac {
                let len: usize = bytes.len() + seal::HMAC_LEN;
                if len > MTU {
                    return Err(Error::Protocol(ProtocolError::DatagramOverMtu { len }));
                }
                seal::seal(secret, &mut bytes);
            }
            Ok(bytes)
        },
    }
}

/// A frame that has no fault makes a datagram within the limit.
pub proof fn one_frame_fits(h: DatagramHeader, f: FrameView)
    requires
        datagram::encode_fault(h, seq![f]) is None,
    ensures
        datagram::datagram_bytes(h, seq![f]).len() == 20 + f.body.len(),
        datagram::datagram_bytes(h, seq![f]).len() <= MTU,
{
    reveal_with_fuel(datagram::frames_bytes, 2);
    reveal_with_fuel(datagram::frames_fault, 2);
    datagram::header_bytes_len(h);
    wire::le_bytes_len((f.msg_id * 16 + f.ch) as nat, 2);
    wire::le_bytes_len(f.body.len(), 2);
    assert(seq![f].skip(1) =~= Seq::<FrameView>::empty());
}

/// Only its message id can keep a fragment from being a datagram.
proof fn fragment_fault(cfg: SessionTableConfig, h: DatagramHeader, msg_id: u16, body: Seq<u8>)
    requires
        h.version == VERSION,
        body.len() <= FRAGMENT_THRESHOLD + fragment::FRAG_HEADER_LEN,
    ensures
        out_fault(cfg, h, FrameView { ch: CH_RELIABLE_ORDERED, msg_id, body }) == (if msg_id
            > 0x0FFF {
            Some(ProtocolError::BadMsgId { msg_id })
        } else {
            None
        }),
{
    let f = FrameView { ch: CH_RELIABLE_ORDERED, msg_id, body };
    reveal_with_fuel(datagram::frames_fault, 2);
    assert(seq![f].skip(1) =~= Seq::<FrameView>::empty());
    if msg_id <= 0x0FFF {
        one_frame_fits(h, f);
    }
}

/// No piece is longer than the limit, and a long payload has pieces.
proof fn pieces_fit(payload: Seq<u8>, max: nat)
    requires
        max > 0,
    ensures
        forall|i: int|
            0 <= i < fragment::pieces(payload, max).len() ==> (
            #[trigger] fragment::pieces(payload, max)[i]).len() <= max,
        payload.len() > 0 ==> fragment::pieces(payload, max).len() > 0,
    decreases payload.len(),
{
    if payload.len() > max {
        let rest = payload.skip(max as int);
        pieces_fit(rest, max);
        let p = fragment::pieces(payload, max);
        assert forall|i: int| 0 <= i < p.len() implies (#[trigger] p[i]).len() <= max by {
            if i > 0 {
                assert(p[i] == fragment::pieces(rest, max)[i - 1]);
            }
        }
    }
}

/// What sending does to a session that is at hand.
enum SendResult {
    Done(Vec<(Vec<u8>, PeerAddr)>),
    Refused(Error),
    Overflow,
}

/// Whether the outcome of a send is the one that was specified.
spec fn is_sent(r: SendResult, after: SessionData, to: PeerAddr, want: Sent) -> bool {
    match want {
        Sent::Done { session, datagrams } => {
            &&& r matches SendResult::Done(v) && datagrams_view(v@) == addressed(datagrams, to)
            &&& after == session
        },
        Sent::Refused { session, fault } => {
            &&& r == SendResult::Refused(Error::Protocol(fault))
            &&& after == session
        },
        Sent::Overflow => r is Overflow,
    }
}

impl Session {
    /// The header of the next datagram.
    fn next_header(&self, cfg: &SessionTableConfig, ack: u16, ack_bits: u32, fragment: bool) -> (h:
        DatagramHeader)
        requires
            ack == peer::ack_of(self@),
            ack_bits == peer::ack_bits_of(self@),
        ensures
            h == out_header(*cfg, self@, self@.send_seq, fragment),
    {
        let hmac: u8 = if cfg.enable_hmac {
            FLAG_HMAC
        } else {
            0
        };
        DatagramHeader {
            version: VERSION,
            flags: if fragment {
                FLAG_FRAGMENT | hmac
            } else {
                hmac
            },
            conn_id: self.conn_id,
            seq: self.send_seq,
            ack,
            ack_bits,
        }
    }

    /// Sends a message in one datagram.
    fn send_whole(
        &mut self,
        cfg: &SessionTableConfig,
        ch: u8,
        msg_id: u16,
        payload: &[u8],
        now: Nanos,
    ) -> (r: SendResult)
        requires
            peer::session_wf(old(self)@),
        ensures
            is_sent(
                r,
                final(self)@,
                old(self)@.peer,
                sent_whole(
                    *cfg,
                    old(self)@,
                    FrameView { ch, msg_id, body: payload@ },
                    now,
                ),
            ),
            !(r is Overflow) ==> peer::session_wf(final(self)@),
            is_small(r),
            final(self)@.conn_id == old(self)@.conn_id,
            final(self)@.sess_id == old(self)@.sess_id,
    {
        let ghost s = self@;
        let ghost f = FrameView { ch, msg_id, body: payload@ };
        let (ack, ack_bits) = self.compute_ack();
        let seq: u16 = self.send_seq;
        let header = self.next_header(cfg, ack, ack_bits, false);
        self.send_seq = seq_next(seq);
        assert(self@ =~= (SessionData { send_seq: serial::seq_plus(seq, 1), ..s }));
        let bytes = match make_datagram(&header, self.secret, cfg, ch, msg_id, payload) {
            Err(e) => {
                return SendResult::Refused(e);
            },
            Ok(bytes) => bytes,
        };
        assert(bytes@ =~= out_bytes(*cfg, s, seq, false, f));
        let ghost after = self@;
        if ch == CH_RELIABLE_ORDERED {
            let copy = wire::to_vec(bytes.as_slice());
            if self.retrans_ordered.push(seq, copy, now).is_err() {
                return SendResult::Overflow;
            }
            assert(self@ =~= (SessionData {
                retrans_ordered: s.retrans_ordered.push(
                    Pending { seq, sent_at: now, datagram: bytes@ },
                ),
                ..after
            }));
        } else if ch == CH_RELIABLE_UNORDERED {
            let copy = wire::to_vec(bytes.as_slice());
            if self.retrans_unordered.push(seq, copy, now).is_err() {
                return SendResult::Overflow;
            }
            assert(self@ =~= (SessionData {
                retrans_unordered: s.retrans_unordered.push(
                    Pending { seq, sent_at: now, datagram: bytes@ },
                ),
                ..after
            }));
        }
        let mut out: Vec<(Vec<u8>, PeerAddr)> = Vec::new();
        out.push((bytes, self.peer));
        assert(datagrams_view(out@) =~= addressed(seq![bytes@], s.peer));
        SendResult::Done(out)
    }

    /// Sends a message on channel 2 in fragments.
    fn send_fragments(
        &mut self,
        cfg: &SessionTableConfig,
        msg_id: u16,
        payload: &[u8],
        now: Nanos,
    ) -> (r: SendResult)
        requires
            peer::session_wf(old(self)@),
            payload@.len() > 0,
        ensures
            is_sent(
                r,
                final(self)@,
                old(self)@.peer,
                sent_in_fragments(*cfg, old(self)@, msg_id, payload@, now),
            ),
            !(r is Overflow) ==> peer::session_wf(final(self)@),
            is_small(r),
            final(self)@.conn_id == old(self)@.conn_id,
            final(self)@.sess_id == old(self)@.sess_id,
    {
        let ghost s = self@;
        let ghost datagrams = fragment_datagrams(*cfg, s, msg_id, payload@);
        let (ack, ack_bits) = self.compute_ack();
        let group: u16 = self.frag_group_id;
        self.frag_group_id = seq_next(group);
        let first_seq: u16 = self.send_seq;
        let parts = fragment::split(payload, group, first_seq, FRAGMENT_THRESHOLD);
        let ghost bodies = fragment::fragments(
            payload@,
            group,
            first_seq,
            FRAGMENT_THRESHOLD as nat,
        );
        proof {
            pieces_fit(payload@, FRAGMENT_THRESHOLD as nat);
            assert(bodies.len() == parts@.len());
            serial::seq_plus_circle(first_seq);
            assert forall|j: int| 0 <= j < parts@.len() implies (#[trigger] parts@[j])@ == bodies[j]
                && parts@[j]@.len() <= FRAGMENT_THRESHOLD + fragment::FRAG_HEADER_LEN by {
                assert(parts@[j]@ == fragment::bodies(parts@)[j]);
                wire::le_bytes_len(group as nat, 2);
                wire::le_bytes_len(first_seq as nat, 2);
                let p = fragment::pieces(payload@, FRAGMENT_THRESHOLD as nat);
                assert(p[j].len() <= FRAGMENT_THRESHOLD);
            }
        }
        let mut out: Vec<(Vec<u8>, PeerAddr)> = Vec::new();
        let mut i: usize = 0;
        assert(self@.retrans_ordered =~= s.retrans_ordered + waiting(datagrams, first_seq, 0, now));
        assert(datagrams_view(out@) =~= addressed(datagrams.take(0), s.peer));
        while i < parts.len()
            invariant
                i <= parts@.len(),
                parts@.len() == datagrams.len() == bodies.len(),
                parts@.len() > 0,
                s == old(self)@,
                peer::session_wf(s),
                first_seq == s.send_seq,
                group == s.frag_group_id,
                datagrams == fragment_datagrams(*cfg, s, msg_id, payload@),
                bodies == fragment::fragments(
                    payload@,
                    group,
                    first_seq,
                    FRAGMENT_THRESHOLD as nat,
                ),
                ack == peer::ack_of(s),
                ack_bits == peer::ack_bits_of(s),
                i > 0 ==> msg_id <= 0x0FFF,
                s.retrans_ordered.len() + i <= RETRANSMIT_QUEUE_CAP,
                self@ == (SessionData {
                    send_seq: serial::seq_plus(first_seq, i as int),
                    frag_group_id: serial::seq_plus(group, 1),
                    retrans_ordered: s.retrans_ordered + waiting(
                        datagrams,
                        first_seq,
                        i as nat,
                        now,
                    ),
                    ..s
                }),
                datagrams_view(out@) == addressed(datagrams.take(i as int), s.peer),
                out@.len() == i,
                forall|j: int| 0 <= j < i ==> (#[trigger] out@[j]).0@.len() <= MTU,
                forall|j: int|
                    0 <= j < parts@.len() ==> (#[trigger] parts@[j])@ == bodies[j]
                        && parts@[j]@.len() <= FRAGMENT_THRESHOLD + fragment::FRAG_HEADER_LEN,
            decreases parts@.len() - i,
        {
            let ghost mid = self@;
            let seq: u16 = self.send_seq;
            proof {
                same_acks(s, mid);
                serial::seq_plus_adds(first_seq, i as int, 1);
            }
            let header = self.next_header(cfg, ack, ack_bits, true);
            assert(header == out_header(*cfg, s, seq, true));
            self.send_seq = seq_next(seq);
            let body: &[u8] = parts[i].as_slice();
            proof {
                fragment_fault(*cfg, header, msg_id, body@);
                assert(parts@[i as int]@ == bodies[i as int]);
            }
            let bytes = match make_datagram(
                &header,
                self.secret,
                cfg,
                CH_RELIABLE_ORDERED,
                msg_id,
                body,
            ) {
                Err(e) => {
                    assert(i == 0);
                    assert(self@ =~= (SessionData {
                        send_seq: serial::seq_plus(s.send_seq, 1),
                        frag_group_id: serial::seq_plus(s.frag_group_id, 1),
                        ..s
                    })) by {
                        assert(s.retrans_ordered + waiting(datagrams, first_seq, 0, now)
                            =~= s.retrans_ordered);
                    }
                    return SendResult::Refused(e);
                },
                Ok(bytes) => bytes,
            };
            assert(bytes@ == datagrams[i as int]);
            let copy = wire::to_vec(bytes.as_slice());
            if self.retrans_ordered.push(seq, copy, now).is_err() {
                return SendResult::Overflow;
            }
            let ghost was = out@;
            out.push((bytes, self.peer));
            proof {
                assert(waiting(datagrams, first_seq, (i + 1) as nat, now) =~= waiting(
                    datagrams,
                    first_seq,
                    i as nat,
                    now,
                ).push(Pending { seq, sent_at: now, datagram: bytes@ }));
                assert(self@.retrans_ordered =~= s.retrans_ordered + waiting(
                    datagrams,
                    first_seq,
                    (i + 1) as nat,
                    now,
                ));
                assert(self@ =~= (SessionData {
                    send_seq: serial::seq_plus(first_seq, i + 1),
                    frag_group_id: serial::seq_plus(group, 1),
                    retrans_ordered: s.retrans_ordered + waiting(
                        datagrams,
                        first_seq,
                        (i + 1) as nat,
                        now,
                    ),
                    ..s
                }));
                assert(datagrams_view(out@) =~= addressed(datagrams.take(i + 1), s.peer)) by {
                    assert(datagrams_view(out@) =~= datagrams_view(was).push((bytes@, s.peer)));
                    assert(datagrams.take(i + 1) =~= datagrams.take(i as int).push(bytes@));
                }
            }
            i = i + 1;
        }
        assert(datagrams.take(i as int) =~= datagrams);
        SendResult::Done(out)
    }
}

/// What is acknowledged does not depend on what is sent.
pub proof fn same_acks(a: SessionData, b: SessionData)
    requires
        a.reorder == b.reorder,
        a.delivered_seqs == b.delivered_seqs,
        a.ch3_seen == b.ch3_seen,
        a.ch2_next == b.ch2_next,
    ensures
        peer::ack_of(a) == peer::ack_of(b),
        peer::ack_bits_of(a) == peer::ack_bits_of(b),
{
    same_bits(a, b, 32);
}

/// The bits behind `same_acks`.
proof fn same_bits(a: SessionData, b: SessionData, n: nat)
    requires
        a.reorder == b.reorder,
        a.delivered_seqs == b.delivered_seqs,
        a.ch3_seen == b.ch3_seen,
        a.ch2_next == b.ch2_next,
    ensures
        peer::ack_bits_upto(a, n) == peer::ack_bits_upto(b, n),
    decreases n,
{
    if n > 0 {
        same_bits(a, b, (n - 1) as nat);
    }
}

/// The bytes in some datagrams.
fn count_bytes(v: &Vec<(Vec<u8>, PeerAddr)>) -> (n: u64)
    requires
        total_len(datagrams_view(v@)) <= u64::MAX,
    ensures
        n == total_len(datagrams_view(v@)),
{
    let ghost d = datagrams_view(v@);
    let mut n: u64 = 0;
    let mut i: usize = v.len();
    assert(d.take(d.len() as int) =~= d);
    while i > 0
        invariant
            i <= v@.len(),
            d == datagrams_view(v@),
            n + total_len(d.take(i as int)) == total_len(d),
            total_len(d) <= u64::MAX,
        decreases i,
    {
        assert(d.take(i as int).drop_last() =~= d.take(i - 1));
        i = i - 1;
        assert(d[i as int] == (v@[i as int].0@, v@[i as int].1));
        n = n + v[i].0.len() as u64;
    }
    n
}

/// Datagrams of limited length are not many bytes.
proof fn total_len_bound(datagrams: Seq<(Seq<u8>, PeerAddr)>, max: nat)
    requires
        forall|i: int| 0 <= i < datagrams.len() ==> (#[trigger] datagrams[i]).0.len() <= max,
    ensures
        total_len(datagrams) <= max * datagrams.len(),
    decreases datagrams.len(),
{
    if datagrams.len() > 0 {
        let init = datagrams.drop_last();
        assert forall|i: int| 0 <= i < init.len() implies (#[trigger] init[i]).0.len() <= max by {
            assert(init[i] == datagrams[i]);
        }
        total_len_bound(init, max);
        let n = init.len() as int;
        assert(max * n + max == max * (n + 1)) by (nonlinear_arith);
    }
}

/// Whether a send gave few and small datagrams.
spec fn is_small(r: SendResult) -> bool {
    r matches SendResult::Done(v) ==> v@.len() <= RETRANSMIT_QUEUE_CAP && forall|i: int|
        0 <= i < v@.len() ==> (#[trigger] v@[i]).0@.len() <= MTU
}

impl SessionTable {
    /// The datagrams of a message to a session, and where they go.
    ///
    /// A reliable message waits for its acknowledgement. If too many wait already, the session is
    /// over: it is taken out of the table.
    pub fn pack_outbound(
        &mut self,
        sess_id: u64,
        ch: u8,
        msg_id: u16,
        payload: &[u8],
        now: Nanos,
    ) -> (r: Result<Vec<(Vec<u8>, PeerAddr)>>)
        requires
            old(self).wf(),
        ensures
            final(self).wf(),
            ({
                let (t, want) = packed_out(old(self)@, sess_id, ch, msg_id, payload@, now);
                &&& final(self)@ == t
                &&& match want {
                    Ok(datagrams) => r matches Ok(v) && datagrams_view(v@) == datagrams,
                    Err(e) => r == Err::<Vec<(Vec<u8>, PeerAddr)>, Error>(e),
                }
            }),
            r matches Ok(v) ==> forall|i: int|
                0 <= i < v@.len() ==> (#[trigger] v@[i]).0@.len() <= MTU,
            r matches Ok(v) ==> total_len(datagrams_view(v@)) <= MTU * RETRANSMIT_QUEUE_CAP,
    {
        let ghost t = self@;
        if ch > 3 {
            return Err(Error::Protocol(ProtocolError::BadChannel { ch }));
        }
        let k: u32 = match self.conn_id_of(sess_id) {
            Some(k) => k,
            None => {
                return Err(Error::SessionNotFound(sess_id));
            },
        };
        let active: bool = match self.store.get(k) {
            Some(s) => s.is_active(),
            None => false,
        };
        if !active {
            return Err(Error::SessionNotFound(sess_id));
        }
        let taken = self.store.take(k);
        let mut s = match taken {
            Some(s) => s,
            None => {
                return Err(Error::SessionNotFound(sess_id));
            },
        };
        let ghost s0 = t.sessions[k];
        let r = if ch == CH_RELIABLE_ORDERED && payload.len() > FRAGMENT_THRESHOLD {
            s.send_fragments(&self.cfg, msg_id, payload, now)
        } else {
            s.send_whole(&self.cfg, ch, msg_id, payload, now)
        };
        let ghost after = s@;
        match r {
            SendResult::Overflow => {
                self.stats.sessions_active.decr();
                assert(self@ =~= closed(t, k));
                Err(Error::Protocol(ProtocolError::RetransmitOverflow))
            },
            SendResult::Refused(e) => {
                self.store.put(k, s);
                assert(self@ =~= with_session(t, k, after));
                proof {
                    update_keeps_wf(t, k, after);
                }
                Err(e)
            },
            SendResult::Done(v) => {
                self.store.put(k, s);
                proof {
                    let d = datagrams_view(v@);
                    assert forall|i: int| 0 <= i < d.len() implies (#[trigger] d[i]).0.len()
                        <= MTU by {
                        assert(d[i] == (v@[i].0@, v@[i].1));
                    }
                    total_len_bound(d, MTU as nat);
                    let n = d.len();
                    assert(MTU as nat * n <= MTU as nat * 64) by (nonlinear_arith)
                        requires
                            n <= 64,
                    ;
                    update_keeps_wf(t, k, after);
                }
                let bytes: u64 = count_bytes(&v);
                self.stats.pkt_out.incr_by(v.len() as u64);
                self.stats.pkt_bytes_out.incr_by(bytes);
                let ghost want = packed_out(t, sess_id, ch, msg_id, payload@, now);
                assert(self@ =~= want.0);
                Ok(v)
            },
        }
    }
}

/// Sending does not change the configuration.
pub proof fn packed_out_keeps_cfg(
    t: TableData,
    sess_id: u64,
    ch: u8,
    msg_id: u16,
    payload: Seq<u8>,
    now: Nanos,
)
    ensures
        packed_out(t, sess_id, ch, msg_id, payload, now).0.cfg == t.cfg,
{
}

/// A fragment of a message that was sent makes a datagram.
pub proof fn fragment_is_encodable(
    cfg: SessionTableConfig,
    s: SessionData,
    msg_id: u16,
    payload: Seq<u8>,
    i: int,
)
    requires
        msg_id <= 0x0FFF,
        0 <= i < fragment_datagrams(cfg, s, msg_id, payload).len(),
    ensures
        ({
            let parts = fragment::fragments(
                payload,
                s.frag_group_id,
                s.send_seq,
                FRAGMENT_THRESHOLD as nat,
            );
            out_fault(
                cfg,
                out_header(cfg, s, serial::seq_plus(s.send_seq, i), true),
                FrameView { ch: CH_RELIABLE_ORDERED, msg_id, body: parts[i] },
            ) is None
        }),
{
    let parts = fragment::fragments(
        payload,
        s.frag_group_id,
        s.send_seq,
        FRAGMENT_THRESHOLD as nat,
    );
    pieces_fit(payload, FRAGMENT_THRESHOLD as nat);
    wire::le_bytes_len(s.frag_group_id as nat, 2);
    wire::le_bytes_len(s.send_seq as nat, 2);
    assert(fragment::pieces(payload, FRAGMENT_THRESHOLD as nat)[i].len() <= FRAGMENT_THRESHOLD);
    fragment_fault(
        cfg,
        out_header(cfg, s, serial::seq_plus(s.send_seq, i), true),
        msg_id,
        parts[i],
    );
}

} // verus!
