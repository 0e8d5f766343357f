//! The engine's decisions: what goes to the logic server, what goes to clients, and when.
//!
//! ```text
//! clients (UDP, TCP, WebSocket) <--> Engine <--> logic server (Unix socket)
//! ```
//!
//! - The engine holds no game state and does not look into payloads.
//! - A slow or absent logic server never blocks the receiving side: what is unreliable is dropped
//!   when the queue is full, what is reliable is kept, and the logic server is told.
//! - A logic server may restart without any client noticing; it is told which sessions live.
//!
//! The embedding program owns the sockets and the clock. It hands in what arrived, and carries
//! out what comes back.

pub mod duties;
pub mod laws;
pub mod link;
pub mod ticks;

use bytes::BytesMut;
use std::collections::VecDeque;
use vstd::prelude::*;

use crate::addr::PeerAddr;
use crate::error::{Error, ProtocolError, Result};
use crate::outside;
use crate::protocol::datagram::{self, DatagramHeader, FrameRef, FrameView};
use crate::protocol::frame::{self, Frame, LinkFrame};
use crate::protocol::types::{
    Nanos, CH_UNRELIABLE_SEQUENCED, CH_UNRELIABLE_UNORDERED, FRAME_DATA_UP, FRAME_ENGINE_HELLO,
    FRAME_KICK, FRAME_MULTICAST, FRAME_OVERLOAD, FRAME_SEND,
    FRAME_SESSION_CLOSE, FRAME_SESSION_OPEN, FRAME_SESSION_RESUME, FRAME_SESSION_STATS,
    FRAME_SET_BUDGET, HEARTBEAT_INTERVAL, UP_QUEUE_CAP, VERSION,
};
use crate::reliable::retransmit;
use crate::reliable::rtt;
use crate::session::event::{self, Event, SessionEvent, CLOSE_KICKED, CLOSE_OVERFLOW};
use crate::session::inbound;
use crate::session::peer::{self, Session, SessionData, SessionState};
use crate::session::table::{self, maintain, plan, receive, send, SessionTable, SessionTableConfig, TableData};
use crate::stats::{self, Stats, StatsSnapshot};

verus! {

/// The first pause before the logic server is tried again.
pub const LOGIC_RECONNECT_INTERVAL: Nanos = 1_000_000_000;

/// The longest pause before the logic server is tried again.
pub const LOGIC_RECONNECT_MAX: Nanos = 8_000_000_000;

/// The least time between two notices of overload.
pub const OVERLOAD_MIN_INTERVAL: Nanos = 100_000_000;

/// The state that the engine decides by.
#[derive(Debug)]
pub struct EngineCore {
    sessions: SessionTable,
    stats: Stats,
    /// Whether the logic server is connected.
    logic_online: bool,
    /// What waits to be written to the logic server.
    up: VecDeque<Frame>,
    last_overload: Nanos,
    last_heartbeat: Nanos,
    /// Whether the logic server is to be told of an overload.
    pending_overload: bool,
    /// When the logic server was last connected.
    logic_last_online: Nanos,
    /// The next pause before the logic server is tried again.
    backoff: Nanos,
    version: u16,
    caps: u32,
}

/// What the engine knows.
#[verifier::ext_equal]
pub struct EngineData {
    pub table: TableData,
    pub stats: StatsSnapshot,
    pub online: bool,
    pub up: Seq<LinkFrame>,
    pub last_overload: Nanos,
    pub last_heartbeat: Nanos,
    pub overload_due: bool,
    pub last_online: Nanos,
    pub backoff: Nanos,
    pub version: u16,
    pub caps: u32,
}

/// What a queue of frames holds.
pub open spec fn frames_view(q: Seq<Frame>) -> Seq<LinkFrame> {
    q.map_values(|f: Frame| f@)
}

impl View for EngineCore {
    type V = EngineData;

    closed spec fn view(&self) -> EngineData {
        EngineData {
            table: self.sessions@,
            stats: self.stats@,
            online: self.logic_online,
            up: frames_view(self.up@),
            last_overload: self.last_overload,
            last_heartbeat: self.last_heartbeat,
            overload_due: self.pending_overload,
            last_online: self.logic_last_online,
            backoff: self.backoff,
            version: self.version,
            caps: self.caps,
        }
    }
}

/// An engine that has just started.
pub open spec fn started(cfg: SessionTableConfig, version: u16, caps: u32, now: Nanos) -> EngineData {
    EngineData {
        table: table::no_sessions(cfg),
        stats: stats::no_counts(),
        online: false,
        up: Seq::empty(),
        last_overload: now,
        last_heartbeat: now,
        overload_due: false,
        last_online: now,
        backoff: LOGIC_RECONNECT_INTERVAL,
        version,
        caps,
    }
}

/// What holds of every engine.
pub open spec fn engine_wf(d: EngineData) -> bool {
    &&& maintain::bounds_ordered(d.table.cfg)
    &&& LOGIC_RECONNECT_INTERVAL <= d.backoff <= LOGIC_RECONNECT_MAX
}

// Towards the logic server.

/// The frame that tells of an event.
pub open spec fn event_frame(e: Event) -> LinkFrame {
    match e {
        Event::Open { sess_id, peer, token } => LinkFrame {
            ty: FRAME_SESSION_OPEN,
            body: frame::session_open_body(sess_id, peer, token),
        },
        Event::Close { sess_id, reason } => LinkFrame {
            ty: FRAME_SESSION_CLOSE,
            body: frame::session_close_body(sess_id, reason),
        },
        Event::Resume { sess_id, gap_ms } => LinkFrame {
            ty: FRAME_SESSION_RESUME,
            body: frame::session_resume_body(sess_id, gap_ms),
        },
        Event::Data { sess_id, ch, msg_id, payload } => LinkFrame {
            ty: FRAME_DATA_UP,
            body: frame::data_body(sess_id, ch, msg_id, payload),
        },
    }
}

/// Whether an event may be dropped: only what came on an unreliable channel.
pub open spec fn is_droppable(e: Event) -> bool {
    e matches Event::Data { ch, .. } && (ch == CH_UNRELIABLE_UNORDERED || ch
        == CH_UNRELIABLE_SEQUENCED)
}

/// One more frame towards the logic server was lost.
pub open spec fn lost_up(d: EngineData) -> EngineData {
    EngineData {
        stats: StatsSnapshot { dropped_up: stats::count_sum(d.stats.dropped_up, 1), ..d.stats },
        ..d
    }
}

/// The logic server is to be told of an overload, unless that was decided a moment ago.
pub open spec fn overload_noted(d: EngineData, now: Nanos) -> EngineData {
    if retransmit::elapsed(now, d.last_overload) < OVERLOAD_MIN_INTERVAL {
        d
    } else {
        EngineData { last_overload: now, overload_due: true, ..d }
    }
}

/// A frame towards the logic server. Without a logic server it is lost. If the queue is full, it
/// is lost if it may be dropped and kept if not, and the logic server is to be told.
pub open spec fn pushed(d: EngineData, f: LinkFrame, droppable: bool, now: Nanos) -> EngineData {
    if !d.online {
        lost_up(d)
    } else if d.up.len() < UP_QUEUE_CAP {
        EngineData { up: d.up.push(f), ..d }
    } else if droppable {
        overload_noted(lost_up(d), now)
    } else {
        overload_noted(EngineData { up: d.up.push(f), ..d }, now)
    }
}

/// Events towards the logic server, one after the other.
pub open spec fn events_pushed(d: EngineData, events: Seq<Event>, now: Nanos) -> EngineData
    decreases events.len(),
{
    if events.len() == 0 {
        d
    } else {
        pushed(
            events_pushed(d, events.drop_last(), now),
            event_frame(events.last()),
            is_droppable(events.last()),
            now,
        )
    }
}

/// Frames towards the logic server, one after the other.
pub open spec fn frames_pushed(d: EngineData, frames: Seq<LinkFrame>, droppable: bool, now: Nanos) -> EngineData
    decreases frames.len(),
{
    if frames.len() == 0 {
        d
    } else {
        pushed(
            frames_pushed(d, frames.drop_last(), droppable, now),
            frames.last(),
            droppable,
            now,
        )
    }
}

/// A datagram from a client: the engine afterwards, and the answer to the client.
pub open spec fn datagram_in(
    d: EngineData,
    peer: PeerAddr,
    buf: Seq<u8>,
    random: Seq<u8>,
    now: Nanos,
) -> (EngineData, Option<Seq<u8>>) {
    let o = receive::received(d.table, peer, buf, random, now);
    (events_pushed(EngineData { table: o.table, ..d }, o.events, now), o.reply)
}

/// The frame that tells of an event.
pub fn frame_of_event(e: &SessionEvent) -> (f: Frame)
    ensures
        f@ == event_frame(e@),
{
    match e {
        SessionEvent::Open { sess_id, peer, token } => frame::session_open(
            *sess_id,
            peer,
            token.as_slice(),
        ),
        SessionEvent::Close { sess_id, reason } => frame::session_close(*sess_id, *reason),
        SessionEvent::Resume { sess_id, gap_ms } => frame::session_resume(*sess_id, *gap_ms),
        SessionEvent::Data { sess_id, ch, msg_id, payload } => frame::data_up(
            *sess_id,
            *ch,
            *msg_id,
            payload.as_slice(),
        ),
    }
}

/// Whether an event may be dropped.
pub fn may_drop(e: &SessionEvent) -> (r: bool)
    ensures
        r == is_droppable(e@),
{
    match e {
        SessionEvent::Data { ch, .. } => *ch == CH_UNRELIABLE_UNORDERED || *ch
            == CH_UNRELIABLE_SEQUENCED,
        _ => false,
    }
}

impl EngineCore {
    /// The engine is sound inside, and `engine_wf` and `table_wf` hold of it.
    pub closed spec fn wf(&self) -> bool {
        &&& self.sessions.wf()
        &&& engine_wf(self@)
    }

    /// What a sound engine knows is sound.
    pub proof fn wf_means(&self)
        requires
            self.wf(),
        ensures
            engine_wf(self@),
            table::table_wf(self@.table),
    {
        self.sessions.wf_means();
    }

    /// An engine that has just started.
    pub fn new(cfg: SessionTableConfig, version: u16, caps: u32, now: Nanos) -> (e: Self)
        requires
            maintain::bounds_ordered(cfg),
        ensures
            e.wf(),
            e@ == started(cfg, version, caps, now),
    {
        let e = EngineCore {
            sessions: SessionTable::new(cfg),
            stats: Stats::new(),
            logic_online: false,
            up: VecDeque::new(),
            last_overload: now,
            last_heartbeat: now,
            pending_overload: false,
            logic_last_online: now,
            backoff: LOGIC_RECONNECT_INTERVAL,
            version,
            caps,
        };
        assert(e@ =~= started(cfg, version, caps, now));
        e
    }

    /// Whether the logic server is connected.
    pub fn logic_online(&self) -> (r: bool)
        ensures
            r == self@.online,
    {
        self.logic_online
    }

    /// The session table.
    pub fn sessions(&self) -> (t: &SessionTable)
        ensures
            t@ == self@.table,
            self.wf() ==> t.wf(),
    {
        &self.sessions
    }

    /// The engine's own metrics: drops, kicks, reconnects.
    pub fn stats(&self) -> (s: StatsSnapshot)
        ensures
            s == self@.stats,
    {
        self.stats.snapshot()
    }

    /// Decides that the logic server is to be told of an overload.
    fn notify_overload(&mut self, now: Nanos)
        requires
            old(self).wf(),
        ensures
            final(self).wf(),
            final(self)@ == overload_noted(old(self)@, now),
    {
        let ghost d = self@;
        if now.saturating_sub(self.last_overload) < OVERLOAD_MIN_INTERVAL {
            return;
        }
        self.last_overload = now;
        self.pending_overload = true;
        assert(self@ =~= overload_noted(d, now));
    }

    /// Queues a frame towards the logic server.
    pub fn push_frame(&mut self, f: Frame, droppable: bool, now: Nanos)
        requires
            old(self).wf(),
        ensures
            final(self).wf(),
            final(self)@ == pushed(old(self)@, f@, droppable, now),
    {
        let ghost d = self@;
        if !self.logic_online {
            self.stats.dropped_up.incr();
            assert(self@ =~= lost_up(d));
        } else if self.up.len() < UP_QUEUE_CAP {
            self.up.push_back(f);
            assert(frames_view(self.up@) =~= d.up.push(f@));
            assert(self@ =~= (EngineData { up: d.up.push(f@), ..d }));
        } else if droppable {
            self.stats.dropped_up.incr();
            assert(self@ =~= lost_up(d));
            self.notify_overload(now);
        } else {
            self.up.push_back(f);
            assert(frames_view(self.up@) =~= d.up.push(f@));
            assert(self@ =~= (EngineData { up: d.up.push(f@), ..d }));
            self.notify_overload(now);
        }
    }

    /// Queues events towards the logic server.
    fn push_events(&mut self, events: &Vec<SessionEvent>, now: Nanos)
        requires
            old(self).wf(),
        ensures
            final(self).wf(),
            final(self)@ == events_pushed(old(self)@, event::events_view(events@), now),
    {
        let ghost d = self@;
        let ghost all = event::events_view(events@);
        let mut i: usize = 0;
        assert(all.take(0) =~= Seq::<Event>::empty());
        while i < events.len()
            invariant
                self.wf(),
                i <= events@.len(),
                all == event::events_view(events@),
                self@ == events_pushed(d, all.take(i as int), now),
            decreases events@.len() - i,
        {
            assert(all.take(i + 1).drop_last() =~= all.take(i as int));
            assert(all.take(i + 1).last() == events@[i as int]@);
            let f = frame_of_event(&events[i]);
            let droppable: bool = may_drop(&events[i]);
            self.push_frame(f, droppable, now);
            i = i + 1;
        }
        assert(all.take(i as int) =~= all);
    }

    /// Takes in a datagram from a client, with the eight random bytes that a handshake uses up;
    /// returns the answer to the client.
    pub fn handle_datagram_with(
        &mut self,
        peer: PeerAddr,
        buf: &[u8],
        random: [u8; 8],
        now: Nanos,
    ) -> (reply: Option<Vec<u8>>)
        requires
            old(self).wf(),
            table::ids_left(old(self)@.table),
        ensures
            final(self).wf(),
            (final(self)@, inbound::reply_view(reply)) == datagram_in(
                old(self)@,
                peer,
                buf@,
                random@,
                now,
            ),
    {
        let ghost d = self@;
        let handled = self.sessions.handle_datagram_with(peer, buf, random, now);
        let ghost o = receive::received(d.table, peer, buf@, random@, now);
        assert(handled.outcome(self.sessions@) == o);
        proof {
            receive::received_keeps_cfg(d.table, peer, buf@, random@, now);
        }
        assert(self@ =~= (EngineData { table: o.table, ..d }));
        self.push_events(&handled.events, now);
        handled.reply
    }

    /// Takes in a datagram from a client; returns the answer to the client.
    pub fn handle_datagram(&mut self, peer: PeerAddr, buf: &[u8], now: Nanos) -> (reply: Option<Vec<u8>>)
        requires
            old(self).wf(),
            table::ids_left(old(self)@.table),
        ensures
            final(self).wf(),
            exists|random: Seq<u8>|
                random.len() == 8 && (final(self)@, inbound::reply_view(reply))
                    == #[trigger] datagram_in(old(self)@, peer, buf@, random, now),
    {
        let ghost d = self@;
        let handled = self.sessions.handle_datagram(peer, buf, now);
        let ghost random = choose|random: Seq<u8>|
            random.len() == 8 && handled.outcome(self.sessions@) == #[trigger] receive::received(
                d.table,
                peer,
                buf@,
                random,
                now,
            );
        let ghost o = receive::received(d.table, peer, buf@, random, now);
        assert(handled.outcome(self.sessions@) == o);
        proof {
            receive::received_keeps_cfg(d.table, peer, buf@, random, now);
        }
        assert(self@ =~= (EngineData { table: o.table, ..d }));
        self.push_events(&handled.events, now);
        assert((self@, inbound::reply_view(handled.reply)) == datagram_in(
            d,
            peer,
            buf@,
            random,
            now,
        ));
        handled.reply
    }

    /// Takes the next frame to be written to the logic server.
    pub fn next_up(&mut self) -> (r: Option<Frame>)
        requires
            old(self).wf(),
        ensures
            final(self).wf(),
            old(self)@.up.len() == 0 ==> r is None && final(self)@ == old(self)@,
            old(self)@.up.len() > 0 ==> {
                &&& r matches Some(f) && f@ == old(self)@.up[0]
                &&& final(self)@ == (EngineData { up: old(self)@.up.skip(1), ..old(self)@ })
            },
    {
        let ghost d = self@;
        if self.up.len() == 0 {
            return None;
        }
        let ghost q = self.up@;
        let r = self.up.pop_front();
        assert(d.up[0] == q[0]@);
        assert(frames_view(self.up@) =~= d.up.skip(1));
        assert(self@ =~= (EngineData { up: d.up.skip(1), ..d }));
        r
    }
}

// Towards clients.

/// Whether the budget of a session admits a message, and the table once the message is charged to
/// it. What cannot be sent at all is charged to nobody.
pub open spec fn charged(
    t: TableData,
    sess_id: u64,
    ch: u8,
    msg_id: u16,
    payload: Seq<u8>,
    now: Nanos,
) -> (TableData, bool) {
    match plan::planned(t, sess_id, ch, msg_id, payload) {
        Some(n) => send::budget_checked(t, sess_id, plan::capped(n), now),
        None => (t, true),
    }
}

/// What a message to a session leads to: the engine afterwards, and the datagrams.
///
/// A message that the session's budget does not admit is dropped as a whole, before anything is
/// made of it. A session that is over because too much waits for acknowledgements is reported to
/// the logic server.
pub open spec fn sent_out(
    d: EngineData,
    sess_id: u64,
    ch: u8,
    msg_id: u16,
    payload: Seq<u8>,
    now: Nanos,
) -> (EngineData, Seq<(Seq<u8>, PeerAddr)>) {
    let (u, ok) = charged(d.table, sess_id, ch, msg_id, payload, now);
    if !ok {
        let bytes = plan::capped(plan::planned(d.table, sess_id, ch, msg_id, payload)->0);
        (
            EngineData {
                table: u,
                stats: StatsSnapshot {
                    dropped_down: stats::count_sum(d.stats.dropped_down, bytes),
                    ..d.stats
                },
                ..d
            },
            Seq::empty(),
        )
    } else {
        let (t, r) = send::packed_out(u, sess_id, ch, msg_id, payload, now);
        match r {
            Ok(datagrams) => (EngineData { table: t, ..d }, datagrams),
            Err(e) => {
                let lost = EngineData {
                    table: t,
                    stats: StatsSnapshot {
                        dropped_down: stats::count_sum(d.stats.dropped_down, 1),
                        ..d.stats
                    },
                    ..d
                };
                (
                    if e == Error::Protocol(ProtocolError::RetransmitOverflow) {
                        pushed(
                            lost,
                            event_frame(Event::Close { sess_id, reason: CLOSE_OVERFLOW }),
                            false,
                            now,
                        )
                    } else {
                        lost
                    },
                    Seq::empty(),
                )
            },
        }
    }
}

/// What a message to several sessions leads to, one after the other.
pub open spec fn multicast_out(
    d: EngineData,
    ids: Seq<u64>,
    ch: u8,
    msg_id: u16,
    payload: Seq<u8>,
    now: Nanos,
) -> (EngineData, Seq<(Seq<u8>, PeerAddr)>)
    decreases ids.len(),
{
    if ids.len() == 0 {
        (d, Seq::empty())
    } else {
        let (e, out) = multicast_out(d, ids.drop_last(), ch, msg_id, payload, now);
        let (f, more) = sent_out(e, ids.last(), ch, msg_id, payload, now);
        (f, out + more)
    }
}

/// What kicking a session leads to: the session is gone, and the logic server is told so.
pub open spec fn kicked(d: EngineData, sess_id: u64, now: Nanos) -> EngineData {
    match send::conn_of(d.table, sess_id) {
        None => d,
        Some(_) => pushed(
            EngineData {
                table: send::kicked(d.table, sess_id),
                stats: StatsSnapshot { kicks: stats::count_sum(d.stats.kicks, 1), ..d.stats },
                ..d
            },
            event_frame(Event::Close { sess_id, reason: CLOSE_KICKED }),
            false,
            now,
        ),
    }
}

/// What a frame from the logic server leads to: the engine afterwards, and the datagrams. A
/// malformed body is an error; a type that is not known is ignored.
pub open spec fn logic_frame_in(d: EngineData, f: LinkFrame, now: Nanos) -> (
    EngineData,
    Result<Seq<(Seq<u8>, PeerAddr)>>,
) {
    if f.ty == FRAME_SEND {
        match frame::data_of(f.body) {
            Err(e) => (d, Err(Error::Protocol(e))),
            Ok((sess_id, ch, msg_id, payload)) => {
                let (e, out) = sent_out(d, sess_id, ch, msg_id, payload, now);
                (e, Ok(out))
            },
        }
    } else if f.ty == FRAME_MULTICAST {
        match frame::multicast_of(f.body) {
            Err(e) => (d, Err(Error::Protocol(e))),
            Ok((ids, ch, msg_id, payload)) => {
                let (e, out) = multicast_out(d, ids, ch, msg_id, payload, now);
                (e, Ok(out))
            },
        }
    } else if f.ty == FRAME_KICK {
        match frame::session_close_of(f.body) {
            Err(e) => (d, Err(Error::Protocol(e))),
            Ok((sess_id, _)) => (kicked(d, sess_id, now), Ok(Seq::empty())),
        }
    } else if f.ty == FRAME_SET_BUDGET {
        match frame::set_budget_of(f.body) {
            Err(e) => (d, Err(Error::Protocol(e))),
            Ok((sess_id, kbps)) => (
                EngineData { table: send::budget_set(d.table, sess_id, kbps), ..d },
                Ok(Seq::empty()),
            ),
        }
    } else {
        (d, Ok(Seq::empty()))
    }
}

impl EngineCore {
    /// Sends a message to a session; adds its datagrams to `out`.
    fn send_outbound(
        &mut self,
        sess_id: u64,
        ch: u8,
        msg_id: u16,
        payload: &[u8],
        now: Nanos,
        out: &mut Vec<(Vec<u8>, PeerAddr)>,
    )
        requires
            old(self).wf(),
        ensures
            final(self).wf(),
            ({
                let (d, more) = sent_out(old(self)@, sess_id, ch, msg_id, payload@, now);
                &&& final(self)@ == d
                &&& send::datagrams_view(final(out)@) == send::datagrams_view(old(out)@) + more
            }),
    {
        let ghost d = self@;
        let ghost before = send::datagrams_view(out@);
        let ghost u = charged(d.table, sess_id, ch, msg_id, payload@, now).0;
        let ghost packed = send::packed_out(u, sess_id, ch, msg_id, payload@, now);
        assert(before + Seq::<(Seq<u8>, PeerAddr)>::empty() =~= before);
        proof {
            send::packed_out_keeps_cfg(u, sess_id, ch, msg_id, payload@, now);
        }
        if let Some(bytes) = self.sessions.planned_bytes(sess_id, ch, msg_id, payload) {
            let ok: bool = self.sessions.check_budget(sess_id, bytes, now);
            if !ok {
                self.stats.dropped_down.incr_by(bytes);
                assert(self@ =~= sent_out(d, sess_id, ch, msg_id, payload@, now).0);
                return;
            }
        }
        match self.sessions.pack_outbound(sess_id, ch, msg_id, payload, now) {
            Ok(packets) => {
                let ghost sent = send::datagrams_view(packets@);
                let mut more = packets;
                let ghost was = out@;
                let ghost add = more@;
                out.append(&mut more);
                assert(out@ =~= was + add);
                assert(send::datagrams_view(out@) =~= before + sent);
                assert(self@ =~= sent_out(d, sess_id, ch, msg_id, payload@, now).0);
            },
            Err(e) => {
                self.stats.dropped_down.incr();
                let ghost lost = EngineData {
                    table: packed.0,
                    stats: StatsSnapshot {
                        dropped_down: stats::count_sum(d.stats.dropped_down, 1),
                        ..d.stats
                    },
                    ..d
                };
                assert(self@ =~= lost);
                match e {
                    Error::Protocol(ProtocolError::RetransmitOverflow) => {
                        let f = frame::session_close(sess_id, CLOSE_OVERFLOW);
                        self.push_frame(f, false, now);
                    },
                    _ => {},
                }
            },
        }
    }

    /// Carries out a frame from the logic server; returns the datagrams to be sent.
    pub fn handle_logic_frame(&mut self, f: &Frame, now: Nanos) -> (r: Result<Vec<(Vec<u8>, PeerAddr)>>)
        requires
            old(self).wf(),
        ensures
            final(self).wf(),
            ({
                let (d, want) = logic_frame_in(old(self)@, f@, now);
                &&& final(self)@ == d
                &&& match want {
                    Ok(out) => r matches Ok(v) && send::datagrams_view(v@) == out,
                    Err(e) => r == Err::<Vec<(Vec<u8>, PeerAddr)>, Error>(e),
                }
            }),
    {
        let ghost d = self@;
        let mut out: Vec<(Vec<u8>, PeerAddr)> = Vec::new();
        assert(send::datagrams_view(out@) =~= Seq::<(Seq<u8>, PeerAddr)>::empty());
        let body: &[u8] = f.body.as_slice();
        if f.ty == FRAME_SEND {
            match frame::parse_data(body) {
                Err(e) => {
                    return Err(e);
                },
                Ok((sess_id, ch, msg_id, payload)) => {
                    self.send_outbound(sess_id, ch, msg_id, payload, now, &mut out);
                    let ghost more = sent_out(d, sess_id, ch, msg_id, payload@, now).1;
                    assert(Seq::<(Seq<u8>, PeerAddr)>::empty() + more =~= more);
                },
            }
        } else if f.ty == FRAME_MULTICAST {
            match frame::parse_multicast(body) {
                Err(e) => {
                    return Err(e);
                },
                Ok((ids, ch, msg_id, payload)) => {
                    let mut i: usize = 0;
                    assert(ids@.take(0) =~= Seq::<u64>::empty());
                    while i < ids.len()
                        invariant
                            self.wf(),
                            i <= ids@.len(),
                            (self@, send::datagrams_view(out@)) == multicast_out(
                                d,
                                ids@.take(i as int),
                                ch,
                                msg_id,
                                payload@,
                                now,
                            ),
                        decreases ids@.len() - i,
                    {
                        assert(ids@.take(i + 1).drop_last() =~= ids@.take(i as int));
                        self.send_outbound(ids[i], ch, msg_id, payload, now, &mut out);
                        i = i + 1;
                    }
                    assert(ids@.take(i as int) =~= ids@);
                },
            }
        } else if f.ty == FRAME_KICK {
            match frame::parse_session_close(body) {
                Err(e) => {
                    return Err(e);
                },
                Ok((sess_id, reason)) => {
                    if self.sessions.kick(sess_id, reason).is_some() {
                        self.stats.kicks.incr();
                        assert(self@ =~= (EngineData {
                            table: send::kicked(d.table, sess_id),
                            stats: StatsSnapshot {
                                kicks: stats::count_sum(d.stats.kicks, 1),
                                ..d.stats
                            },
                            ..d
                        }));
                        let close = frame::session_close(sess_id, CLOSE_KICKED);
                        self.push_frame(close, false, now);
                    } else {
                        assert(self@ =~= d);
                    }
                },
            }
        } else if f.ty == FRAME_SET_BUDGET {
            match frame::parse_set_budget(body) {
                Err(e) => {
                    return Err(e);
                },
                Ok((sess_id, kbps)) => {
                    self.sessions.set_budget(sess_id, kbps);
                    assert(self@ =~= (EngineData {
                        table: send::budget_set(d.table, sess_id, kbps),
                        ..d
                    }));
                },
            }
        }
        Ok(out)
    }

    /// Counts a datagram that could not be sent.
    pub fn note_send_failed(&mut self)
        requires
            old(self).wf(),
        ensures
            final(self).wf(),
            final(self)@ == (EngineData {
                stats: StatsSnapshot {
                    dropped_down: stats::count_sum(old(self)@.stats.dropped_down, 1),
                    ..old(self)@.stats
                },
                ..old(self)@
            }),
    {
        let ghost d = self@;
        self.stats.dropped_down.incr();
        assert(self@ =~= (EngineData {
            stats: StatsSnapshot {
                dropped_down: stats::count_sum(d.stats.dropped_down, 1),
                ..d.stats
            },
            ..d
        }));
    }
}

// Time.

/// Whether `e` is what time makes of the sessions of `d`, taken in some order: those that were
/// silent enter the grace period, those whose grace period is over are reported closed.
pub open spec fn is_aged(d: EngineData, now: Nanos, e: EngineData) -> bool {
    exists|order: Seq<u32>| #[trigger]
        maintain::is_walk(d.table, order) && e == aged_by(d, order, now)
}

/// What time makes of the sessions of `d`, taken in the given order.
pub open spec fn aged_by(d: EngineData, order: Seq<u32>, now: Nanos) -> EngineData {
    let (t, events) = maintain::all_aged(d.table, order, now);
    events_pushed(EngineData { table: t, ..d }, events, now)
}

/// Whether `e` and `out` are what the reliable layer makes of `d`, its sessions taken in some
/// order: what has waited for too long goes out again.
pub open spec fn is_resent(
    d: EngineData,
    now: Nanos,
    e: EngineData,
    out: Seq<(Seq<u8>, PeerAddr)>,
) -> bool {
    exists|order: Seq<u32>| #[trigger]
        maintain::is_walk(d.table, order) && {
            let (t, more) = maintain::all_refreshed(d.table, order, now);
            e == (EngineData { table: t, ..d }) && out == more
        }
}

/// Whether a session is due a heartbeat: it is active, and nothing came from it for a while.
pub open spec fn is_quiet(s: SessionData, now: Nanos) -> bool {
    s.state == SessionState::Active && retransmit::elapsed(now, s.last_rx) >= HEARTBEAT_INTERVAL
}

/// A heartbeat: a header without frames.
pub open spec fn heartbeat_bytes(s: SessionData) -> Seq<u8> {
    datagram::datagram_bytes(
        DatagramHeader {
            version: VERSION,
            flags: 0,
            conn_id: s.conn_id,
            seq: s.send_seq,
            ack: peer::ack_of(s),
            ack_bits: peer::ack_bits_of(s),
        },
        Seq::empty(),
    )
}

/// The heartbeat of a session, if it is due one.
pub open spec fn heartbeat_of(s: SessionData, now: Nanos) -> Option<(Seq<u8>, PeerAddr)> {
    if is_quiet(s, now) {
        Some((heartbeat_bytes(s), s.peer))
    } else {
        None
    }
}

/// The heartbeats of the sessions in `order`.
pub open spec fn heartbeats(t: TableData, order: Seq<u32>, now: Nanos) -> Seq<(Seq<u8>, PeerAddr)>
    decreases order.len(),
{
    if order.len() == 0 {
        Seq::empty()
    } else {
        let init = heartbeats(t, order.drop_last(), now);
        match heartbeat_of(t.sessions[order.last()], now) {
            Some(b) => init.push(b),
            None => init,
        }
    }
}

/// Whether `e` and `out` are what the heartbeat makes of `d`: once per interval, every quiet
/// session gets one, the sessions taken in some order.
pub open spec fn is_beaten(
    d: EngineData,
    now: Nanos,
    e: EngineData,
    out: Seq<(Seq<u8>, PeerAddr)>,
) -> bool {
    if retransmit::elapsed(now, d.last_heartbeat) < HEARTBEAT_INTERVAL {
        e == d && out == Seq::<(Seq<u8>, PeerAddr)>::empty()
    } else {
        e == (EngineData { last_heartbeat: now, ..d }) && exists|order: Seq<u32>| #[trigger]
            maintain::is_walk(d.table, order) && out == heartbeats(d.table, order, now)
    }
}

/// Whether `e` and `out` are what one tick makes of `d`: ageing, then resending, then heartbeats.
pub open spec fn is_tick(
    d: EngineData,
    now: Nanos,
    e: EngineData,
    out: Seq<(Seq<u8>, PeerAddr)>,
) -> bool {
    exists|a: EngineData, b: EngineData, x: Seq<(Seq<u8>, PeerAddr)>, y: Seq<(Seq<u8>, PeerAddr)>|
        {
            &&& #[trigger] is_aged(d, now, a)
            &&& #[trigger] is_resent(a, now, b, x)
            &&& #[trigger] is_beaten(b, now, e, y)
            &&& out == x + y
        }
}

/// The frame that reports on a session: its round-trip time; loss and throughput are not measured.
pub open spec fn stats_frame(s: SessionData) -> LinkFrame {
    LinkFrame {
        ty: FRAME_SESSION_STATS,
        body: frame::session_stats_body(s.sess_id, rtt::srtt_ms_of(s.rtt), 0, 0),
    }
}

/// The reports on the sessions in `order`.
pub open spec fn stats_frames(t: TableData, order: Seq<u32>) -> Seq<LinkFrame> {
    order.map_values(|k: u32| stats_frame(t.sessions[k]))
}

/// The low 32 bits of a count.
pub open spec fn low_bits(n: u64) -> u32 {
    (n % 0x1_0000_0000) as u32
}

/// The notice of overload, if one is due.
pub open spec fn overload_told(d: EngineData, now: Nanos) -> EngineData {
    if d.overload_due {
        pushed(
            EngineData { overload_due: false, ..d },
            LinkFrame {
                ty: FRAME_OVERLOAD,
                body: frame::overload_body(
                    low_bits(d.stats.dropped_up),
                    low_bits(d.stats.dropped_down),
                ),
            },
            false,
            now,
        )
    } else {
        d
    }
}

/// Whether `e` is what a second makes of `d`: a report on every session, taken in some order, and
/// then the notice of overload if one is due.
pub open spec fn is_second(d: EngineData, now: Nanos, e: EngineData) -> bool {
    exists|order: Seq<u32>| #[trigger]
        maintain::is_walk(d.table, order) && e == overload_told(
            frames_pushed(d, stats_frames(d.table, order), true, now),
            now,
        )
}

/// The value in an optional datagram.
pub open spec fn beat_view(b: Option<(Vec<u8>, PeerAddr)>) -> Option<(Seq<u8>, PeerAddr)> {
    match b {
        Some(x) => Some((x.0@, x.1)),
        None => None,
    }
}

impl Session {
    /// The session's heartbeat, if it is due one.
    pub fn heartbeat(&self, now: Nanos) -> (r: Option<(Vec<u8>, PeerAddr)>)
        ensures
            beat_view(r) == heartbeat_of(self@, now),
    {
        if self.is_active() && now.saturating_sub(self.last_rx) >= HEARTBEAT_INTERVAL {
            let (ack, ack_bits) = self.compute_ack();
            let header = DatagramHeader {
                version: VERSION,
                flags: 0,
                conn_id: self.conn_id,
                seq: self.send_seq,
                ack,
                ack_bits,
            };
            let none: Vec<FrameRef> = Vec::new();
            let mut out: Vec<u8> = Vec::new();
            let _len = datagram::encode(&header, none.as_slice(), &mut out);
            assert(datagram::frame_views(none@) =~= Seq::<FrameView>::empty());
            assert(out@ =~= heartbeat_bytes(self@));
            Some((out, self.peer))
        } else {
            None
        }
    }
}

impl EngineCore {
    /// Lets time pass for the sessions.
    fn age_sessions(&mut self, now: Nanos)
        requires
            old(self).wf(),
        ensures
            final(self).wf(),
            is_aged(old(self)@, now, final(self)@),
    {
        let ghost d = self@;
        let events = self.sessions.maintain(now);
        let ghost order = choose|order: Seq<u32>| #[trigger]
            maintain::is_walk(d.table, order) && (self.sessions@, event::events_view(events@))
                == maintain::all_aged(d.table, order, now);
        proof {
            maintain::all_aged_keeps_cfg(d.table, order, now);
        }
        assert(self@ =~= (EngineData { table: maintain::all_aged(d.table, order, now).0, ..d }));
        self.push_events(&events, now);
        assert(self@ == aged_by(d, order, now));
    }

    /// What has waited for too long for its acknowledgement.
    fn resend(&mut self, now: Nanos) -> (out: Vec<(Vec<u8>, PeerAddr)>)
        requires
            old(self).wf(),
        ensures
            final(self).wf(),
            is_resent(old(self)@, now, final(self)@, send::datagrams_view(out@)),
    {
        let ghost d = self@;
        let out = self.sessions.maintain_reliable(now);
        let ghost order = choose|order: Seq<u32>| #[trigger]
            maintain::is_walk(d.table, order) && (self.sessions@, send::datagrams_view(out@))
                == maintain::all_refreshed(d.table, order, now);
        proof {
            maintain::all_refreshed_keeps_cfg(d.table, order, now);
        }
        assert(maintain::is_walk(d.table, order));
        assert(self@ =~= (EngineData {
            table: maintain::all_refreshed(d.table, order, now).0,
            ..d
        }));
        out
    }

    /// The heartbeats that are due.
    fn beat(&mut self, now: Nanos) -> (out: Vec<(Vec<u8>, PeerAddr)>)
        requires
            old(self).wf(),
        ensures
            final(self).wf(),
            is_beaten(old(self)@, now, final(self)@, send::datagrams_view(out@)),
    {
        let ghost d = self@;
        let mut out: Vec<(Vec<u8>, PeerAddr)> = Vec::new();
        assert(send::datagrams_view(out@) =~= Seq::<(Seq<u8>, PeerAddr)>::empty());
        if now.saturating_sub(self.last_heartbeat) < HEARTBEAT_INTERVAL {
            return out;
        }
        self.last_heartbeat = now;
        let f = |s: &Session| -> (r: Option<(Vec<u8>, PeerAddr)>)
            ensures
                beat_view(r) == heartbeat_of(s@, now),
            { s.heartbeat(now) };
        let beats = self.sessions.for_each_session(f);
        let ghost order = choose|order: Seq<u32>| #[trigger]
            maintain::is_walk(d.table, order) && maintain::is_map_of(d.table, order, f, beats@);
        let mut i: usize = 0;
        assert(order.take(0) =~= Seq::<u32>::empty());
        while i < beats.len()
            invariant
                i <= beats@.len(),
                maintain::is_map_of(d.table, order, f, beats@),
                forall|e: &Session, x: Option<(Vec<u8>, PeerAddr)>| #[trigger]
                    f.ensures((e,), x) ==> beat_view(x) == heartbeat_of(e@, now),
                send::datagrams_view(out@) == heartbeats(d.table, order.take(i as int), now),
            decreases beats@.len() - i,
        {
            assert(order.take(i + 1).drop_last() =~= order.take(i as int));
            assert(maintain::made_by(f, d.table.sessions[order[i as int]], beats@[i as int]));
            match &beats[i] {
                Some((bytes, to)) => {
                    let copy = crate::wire::to_vec(bytes.as_slice());
                    let ghost was = out@;
                    out.push((copy, *to));
                    assert(send::datagrams_view(out@) =~= send::datagrams_view(was).push(
                        (bytes@, *to),
                    ));
                },
                None => {},
            }
            i = i + 1;
        }
        assert(order.take(i as int) =~= order);
        assert(maintain::is_walk(d.table, order));
        assert(self@ =~= (EngineData { last_heartbeat: now, ..d }));
        out
    }

    /// What happens ten times a second: sessions age, packets are sent again, quiet sessions get
    /// a heartbeat. Returns the datagrams to be sent.
    pub fn tick(&mut self, now: Nanos) -> (out: Vec<(Vec<u8>, PeerAddr)>)
        requires
            old(self).wf(),
        ensures
            final(self).wf(),
            is_tick(old(self)@, now, final(self)@, send::datagrams_view(out@)),
    {
        let ghost d = self@;
        self.age_sessions(now);
        let ghost a = self@;
        let mut out = self.resend(now);
        let ghost b = self@;
        let ghost x = out@;
        let mut beats = self.beat(now);
        let ghost y = beats@;
        out.append(&mut beats);
        assert(out@ =~= x + y);
        assert(send::datagrams_view(out@) =~= send::datagrams_view(x) + send::datagrams_view(y));
        assert(is_aged(d, now, a));
        assert(is_resent(a, now, b, send::datagrams_view(x)));
        assert(is_beaten(b, now, self@, send::datagrams_view(y)));
        out
    }

    /// Queues frames towards the logic server.
    fn push_frames(&mut self, frames: &Vec<Frame>, droppable: bool, now: Nanos)
        requires
            old(self).wf(),
        ensures
            final(self).wf(),
            final(self)@ == frames_pushed(old(self)@, frames_view(frames@), droppable, now),
    {
        let ghost d = self@;
        let ghost all = frames_view(frames@);
        let mut i: usize = 0;
        assert(all.take(0) =~= Seq::<LinkFrame>::empty());
        while i < frames.len()
            invariant
                self.wf(),
                i <= frames@.len(),
                all == frames_view(frames@),
                self@ == frames_pushed(d, all.take(i as int), droppable, now),
            decreases frames@.len() - i,
        {
            assert(all.take(i + 1).drop_last() =~= all.take(i as int));
            let f = Frame::new(frames[i].ty, crate::wire::to_vec(frames[i].body.as_slice()));
            assert(f@ =~= all.take(i + 1).last());
            self.push_frame(f, droppable, now);
            i = i + 1;
        }
        assert(all.take(i as int) =~= all);
    }

    /// What happens once a second: a report on every session, and the notice of overload if one
    /// is due.
    pub fn tick_second(&mut self, now: Nanos)
        requires
            old(self).wf(),
        ensures
            final(self).wf(),
            is_second(old(self)@, now, final(self)@),
    {
        let ghost d = self@;
        let f = |s: &Session| -> (r: Frame)
            ensures
                r@ == stats_frame(s@),
            { frame::session_stats(s.sess_id, s.rtt.srtt_ms(), 0, 0) };
        let frames = self.sessions.for_each_session(f);
        let ghost order = choose|order: Seq<u32>| #[trigger]
            maintain::is_walk(d.table, order) && maintain::is_map_of(d.table, order, f, frames@);
        assert(frames_view(frames@) =~= stats_frames(d.table, order)) by {
            assert forall|j: int| 0 <= j < order.len() implies (#[trigger] frames@[j])@ == stats_frame(
                d.table.sessions[order[j]],
            ) by {
                assert(maintain::made_by(f, d.table.sessions[order[j]], frames@[j]));
            }
        }
        self.push_frames(&frames, true, now);
        let ghost e = self@;
        if self.pending_overload {
            self.pending_overload = false;
            assert(self@ =~= (EngineData { overload_due: false, ..e }));
            let up: u64 = self.stats.dropped_up.get();
            let down: u64 = self.stats.dropped_down.get();
            assert(up as u32 == up % 0x1_0000_0000) by (bit_vector);
            assert(down as u32 == down % 0x1_0000_0000) by (bit_vector);
            let notice = frame::overload(up as u32, down as u32);
            self.push_frame(notice, false, now);
        }
        assert(maintain::is_walk(d.table, order));
        assert(self@ == overload_told(e, now));
    }
}

// The link to the logic server.

/// The pause after `backoff`: twice as long, up to a limit.
pub open spec fn next_backoff(backoff: Nanos) -> Nanos {
    if 2 * backoff > LOGIC_RECONNECT_MAX {
        LOGIC_RECONNECT_MAX
    } else {
        (2 * backoff) as Nanos
    }
}

/// The engine once the logic server is connected: the queue is new, and pauses start over.
pub open spec fn connected(d: EngineData) -> EngineData {
    EngineData {
        online: true,
        up: Seq::empty(),
        backoff: LOGIC_RECONNECT_INTERVAL,
        stats: StatsSnapshot {
            logic_reconnects: stats::count_sum(d.stats.logic_reconnects, 1),
            ..d.stats
        },
        ..d
    }
}

/// The engine once the logic server is gone: what waited for it is lost.
pub open spec fn disconnected(d: EngineData) -> EngineData {
    EngineData { online: false, up: Seq::empty(), backoff: next_backoff(d.backoff), ..d }
}

/// The frames that tell the logic server which sessions live.
pub open spec fn resume_frames(t: TableData, order: Seq<u32>, gap_ms: u32) -> Seq<LinkFrame> {
    order.map_values(
        |k: u32|
            LinkFrame {
                ty: FRAME_SESSION_RESUME,
                body: frame::session_resume_body(t.sessions[k].sess_id, gap_ms),
            },
    )
}

impl EngineCore {
    /// The logic server is connected. Returns the greeting to be written to it.
    pub fn on_connected(&mut self) -> (hello: BytesMut)
        requires
            old(self).wf(),
        ensures
            final(self).wf(),
            final(self)@ == connected(old(self)@),
            outside::buffered(hello) == frame::link_bytes(
                LinkFrame {
                    ty: FRAME_ENGINE_HELLO,
                    body: frame::hello_body(old(self)@.version, old(self)@.caps),
                },
            ),
    {
        let ghost d = self@;
        self.backoff = LOGIC_RECONNECT_INTERVAL;
        self.logic_online = true;
        self.stats.logic_reconnects.incr();
        self.up = VecDeque::new();
        assert(frames_view(self.up@) =~= Seq::<LinkFrame>::empty());
        assert(self@ =~= connected(d));
        let mut hello = BytesMut::new();
        let _done = frame::engine_hello(self.version, self.caps, &mut hello);
        assert(outside::buffered(hello) =~= frame::link_bytes(
            LinkFrame {
                ty: FRAME_ENGINE_HELLO,
                body: frame::hello_body(d.version, d.caps),
            },
        ));
        hello
    }

    /// The greeting was written. Returns the frames that tell the logic server which sessions
    /// live, and for how long it was away.
    pub fn on_greeted(&mut self, now: Nanos) -> (frames: Vec<Frame>)
        requires
            old(self).wf(),
        ensures
            final(self).wf(),
            final(self)@ == (EngineData { last_online: now, ..old(self)@ }),
            exists|order: Seq<u32>| #[trigger]
                maintain::is_walk(old(self)@.table, order) && frames_view(frames@) == resume_frames(
                    old(self)@.table,
                    order,
                    inbound::gap_ms(now, old(self)@.last_online),
                ),
    {
        let ghost d = self@;
        let gap: u32 = inbound::gap_in_ms(now, self.logic_last_online);
        self.logic_last_online = now;
        let f = |s: &Session| -> (r: Frame)
            ensures
                r@ == (LinkFrame {
                    ty: FRAME_SESSION_RESUME,
                    body: frame::session_resume_body(s@.sess_id, gap),
                }),
            { frame::session_resume(s.sess_id, gap) };
        let frames = self.sessions.for_each_session(f);
        let ghost order = choose|order: Seq<u32>| #[trigger]
            maintain::is_walk(d.table, order) && maintain::is_map_of(d.table, order, f, frames@);
        assert(frames_view(frames@) =~= resume_frames(d.table, order, gap)) by {
            assert forall|j: int| 0 <= j < order.len() implies (#[trigger] frames@[j])@ == (LinkFrame {
                ty: FRAME_SESSION_RESUME,
                body: frame::session_resume_body(d.table.sessions[order[j]].sess_id, gap),
            }) by {
                assert(maintain::made_by(f, d.table.sessions[order[j]], frames@[j]));
            }
        }
        assert(maintain::is_walk(d.table, order));
        assert(self@ =~= (EngineData { last_online: now, ..d }));
        frames
    }

    /// The greeting could not be written. Returns the pause before the next try.
    pub fn on_greeting_failed(&mut self) -> (pause: Nanos)
        requires
            old(self).wf(),
        ensures
            final(self).wf(),
            final(self)@ == disconnected(old(self)@),
            pause == old(self)@.backoff,
    {
        let ghost d = self@;
        let pause: Nanos = self.on_connect_failed();
        self.logic_online = false;
        self.up = VecDeque::new();
        assert(frames_view(self.up@) =~= Seq::<LinkFrame>::empty());
        assert(self@ =~= disconnected(d));
        pause
    }

    /// The link broke. Returns the pause before the next try.
    pub fn on_link_down(&mut self, now: Nanos) -> (pause: Nanos)
        requires
            old(self).wf(),
        ensures
            final(self).wf(),
            final(self)@ == (EngineData { last_online: now, ..disconnected(old(self)@) }),
            pause == old(self)@.backoff,
    {
        let ghost d = self@;
        let pause: Nanos = self.on_greeting_failed();
        self.logic_last_online = now;
        assert(self@ =~= (EngineData { last_online: now, ..disconnected(d) }));
        pause
    }

    /// The logic server could not be reached. Returns the pause before the next try.
    pub fn on_connect_failed(&mut self) -> (pause: Nanos)
        requires
            old(self).wf(),
        ensures
            final(self).wf(),
            final(self)@ == (EngineData {
                backoff: next_backoff(old(self)@.backoff),
                ..old(self)@
            }),
            pause == old(self)@.backoff,
    {
        let ghost d = self@;
        let pause: Nanos = self.backoff;
        self.backoff = if 2 * pause > LOGIC_RECONNECT_MAX {
            LOGIC_RECONNECT_MAX
        } else {
            2 * pause
        };
        assert(self@ =~= (EngineData { backoff: next_backoff(d.backoff), ..d }));
        pause
    }

    /// The engine shuts down: every session is closed, and the logic server is told of each.
    pub fn shut_down(&mut self, now: Nanos)
        requires
            old(self).wf(),
        ensures
            final(self).wf(),
            exists|order: Seq<u32>| #[trigger]
                maintain::is_walk(old(self)@.table, order) && {
                    let (t, events) = maintain::all_closed(old(self)@.table, order);
                    final(self)@ == events_pushed(
                        EngineData { table: t, ..old(self)@ },
                        events,
                        now,
                    )
                },
    {
        let ghost d = self@;
        let events = self.sessions.drain();
        let ghost order = choose|order: Seq<u32>| #[trigger]
            maintain::is_walk(d.table, order) && (self.sessions@, event::events_view(events@))
                == maintain::all_closed(d.table, order);
        proof {
            maintain::all_closed_keeps_cfg(d.table, order);
        }
        assert(self@ =~= (EngineData { table: maintain::all_closed(d.table, order).0, ..d }));
        self.push_events(&events, now);
        assert(maintain::is_walk(d.table, order));
    }
}

} // verus!
