//! A datagram that arrives for a session: acknowledgements, then the frames by channel.

use vstd::prelude::*;

use crate::addr::PeerAddr;
use crate::collections::{self, deque_has, deque_push_capped};
use crate::protocol::datagram::{self, DatagramHeader, FrameRef, FrameView};
use crate::protocol::types::{
    Nanos, CH_RELIABLE_ORDERED, CH_RELIABLE_UNORDERED, CH_UNRELIABLE_SEQUENCED,
    CH_UNRELIABLE_UNORDERED, FLAG_PURE_ACK, MILLISECOND, VERSION,
};
use crate::reliable::retransmit;
use crate::reliable::rtt;
use crate::reliable::serial::{self, seq_newer};
use crate::session::event::{self, Event, SessionEvent};
use crate::session::peer::{
    self, record_seq, Session, SessionData, SessionState, CH3_SEEN_CAP,
};
use crate::stats::{self, Stats, StatsSnapshot};
use crate::wire;

verus! {

/// What a datagram leads to: the session afterwards, the events, whether an acknowledgement is
/// owed, and the metrics.
#[verifier::ext_equal]
pub struct Inbound {
    pub session: SessionData,
    pub events: Seq<Event>,
    pub owes_ack: bool,
    pub stats: StatsSnapshot,
}

/// The event that delivers a frame.
pub open spec fn data_event(s: SessionData, f: FrameView) -> Event {
    Event::Data { sess_id: s.sess_id, ch: f.ch, msg_id: f.msg_id, payload: f.body }
}

/// The session after packet `seq` was recorded in its receive window; the first packet starts the
/// window.
pub open spec fn recorded(s: SessionData, seq: u16) -> SessionData {
    if s.recv_any {
        let (recv_seq, recv_bits) = peer::window_after(s.recv_seq, s.recv_bits, seq);
        SessionData { recv_seq, recv_bits, ..s }
    } else {
        SessionData { recv_any: true, recv_seq: seq, recv_bits: 0, ..s }
    }
}

/// What one frame leads to.
///
/// Channel 0 delivers everything; channel 1 only what is newer than all before it; channel 2
/// everything once and in order; channel 3 everything once, in any order.
pub open spec fn frame_received(i: Inbound, h: DatagramHeader, f: FrameView, now: Nanos) -> Inbound {
    let s = recorded(i.session, h.seq);
    let stats = StatsSnapshot {
        pkt_bytes_in: stats::count_sum(i.stats.pkt_bytes_in, f.body.len() as u64),
        ..i.stats
    };
    if f.ch == CH_UNRELIABLE_UNORDERED {
        Inbound { session: s, events: i.events.push(data_event(s, f)), stats, ..i }
    } else if f.ch == CH_UNRELIABLE_SEQUENCED {
        if s.ch1_last is None || serial::is_newer(h.seq, s.ch1_last->0) {
            Inbound {
                session: SessionData { ch1_last: Some(h.seq), ..s },
                events: i.events.push(data_event(s, f)),
                stats,
                ..i
            }
        } else {
            Inbound { session: s, stats, ..i }
        }
    } else if f.ch == CH_RELIABLE_ORDERED {
        let (t, events) = peer::ch2_received(s, h, f, now);
        Inbound { session: t, events: i.events + events, owes_ack: true, stats }
    } else if f.ch == CH_RELIABLE_UNORDERED {
        if s.ch3_seen.contains(h.seq) {
            Inbound { session: s, owes_ack: true, stats, ..i }
        } else {
            Inbound {
                session: SessionData {
                    ch3_seen: collections::push_capped(s.ch3_seen, h.seq, CH3_SEEN_CAP as nat),
                    ..s
                },
                events: i.events.push(data_event(s, f)),
                owes_ack: true,
                stats,
            }
        }
    } else {
        Inbound {
            session: s,
            stats: StatsSnapshot { pkt_bad: stats::count_sum(stats.pkt_bad, 1), ..stats },
            ..i
        }
    }
}

/// What frames lead to, one after the other.
pub open spec fn frames_received(
    i: Inbound,
    h: DatagramHeader,
    frames: Seq<FrameView>,
    now: Nanos,
) -> Inbound
    decreases frames.len(),
{
    if frames.len() == 0 {
        i
    } else {
        frame_received(frames_received(i, h, frames.drop_last(), now), h, frames.last(), now)
    }
}

/// The length of a gap in milliseconds, at most what 32 bits hold.
pub open spec fn gap_ms(now: Nanos, since: Nanos) -> u32 {
    let ms = retransmit::elapsed(now, since) / MILLISECOND;
    if ms > u32::MAX {
        u32::MAX
    } else {
        ms as u32
    }
}

/// The length of a gap in milliseconds, at most what 32 bits hold.
pub fn gap_in_ms(now: Nanos, since: Nanos) -> (ms: u32)
    ensures
        ms == gap_ms(now, since),
{
    let ms: u64 = now.saturating_sub(since) / MILLISECOND;
    if ms > u32::MAX as u64 {
        u32::MAX
    } else {
        ms as u32
    }
}

/// The round-trip sample that a report yields: from channel 3 if it covers something there, else
/// from channel 2.
pub open spec fn ack_sample(s: SessionData, h: DatagramHeader, now: Nanos) -> Option<Nanos> {
    let n2 = retransmit::covered_prefix(s.retrans_ordered, h.ack, h.ack_bits) as int;
    let n3 = retransmit::covered_prefix(s.retrans_unordered, h.ack, h.ack_bits) as int;
    if n3 > 0 {
        Some(retransmit::elapsed(now, s.retrans_unordered[n3 - 1].sent_at))
    } else if n2 > 0 {
        Some(retransmit::elapsed(now, s.retrans_ordered[n2 - 1].sent_at))
    } else {
        None
    }
}

/// The session after the report in a header was taken in.
pub open spec fn ack_received(s: SessionData, h: DatagramHeader, now: Nanos) -> SessionData {
    let n2 = retransmit::covered_prefix(s.retrans_ordered, h.ack, h.ack_bits) as int;
    let n3 = retransmit::covered_prefix(s.retrans_unordered, h.ack, h.ack_bits) as int;
    SessionData {
        retrans_ordered: s.retrans_ordered.skip(n2),
        retrans_unordered: s.retrans_unordered.skip(n3),
        rtt: match ack_sample(s, h, now) {
            Some(rtt) => rtt::sampled(s.rtt, rtt),
            None => s.rtt,
        },
        ..s
    }
}

/// The metrics after the report in a header was taken in.
pub open spec fn ack_counted(s: SessionData, h: DatagramHeader, stats: StatsSnapshot) -> StatsSnapshot {
    let n2 = retransmit::covered_prefix(s.retrans_ordered, h.ack, h.ack_bits);
    let n3 = retransmit::covered_prefix(s.retrans_unordered, h.ack, h.ack_bits);
    StatsSnapshot {
        acks_seen: stats::count_sum(stats::count_sum(stats.acks_seen, n2 as u64), n3 as u64),
        ..stats
    }
}

/// What a datagram leads to.
///
/// The session follows the peer to its new address. In the grace period the datagram only brings
/// the session back; what it carries is not read.
pub open spec fn packet_received(
    s: SessionData,
    from: PeerAddr,
    h: DatagramHeader,
    frames: Seq<FrameView>,
    stats: StatsSnapshot,
    now: Nanos,
) -> Inbound {
    let stats = if s.peer != from {
        StatsSnapshot { nat_rebind: stats::count_sum(stats.nat_rebind, 1), ..stats }
    } else {
        stats
    };
    let s = SessionData { peer: from, last_rx: now, ..s };
    match s.state {
        SessionState::Grace { since } => Inbound {
            session: SessionData { state: SessionState::Active, ..s },
            events: seq![Event::Resume { sess_id: s.sess_id, gap_ms: gap_ms(now, since) }],
            owes_ack: false,
            stats,
        },
        SessionState::Active => frames_received(
            Inbound {
                session: ack_received(s, h, now),
                events: Seq::empty(),
                owes_ack: false,
                stats: ack_counted(s, h, stats),
            },
            h,
            frames,
            now,
        ),
    }
}

/// The header of a bare acknowledgement.
pub open spec fn pure_ack_header(s: SessionData) -> DatagramHeader {
    DatagramHeader {
        version: VERSION,
        flags: FLAG_PURE_ACK,
        conn_id: s.conn_id,
        seq: s.send_seq,
        ack: peer::ack_of(s),
        ack_bits: peer::ack_bits_of(s),
    }
}

/// The answer to a datagram: a bare acknowledgement, if one is owed.
pub open spec fn packet_reply(i: Inbound) -> Option<Seq<u8>> {
    if i.owes_ack {
        Some(datagram::datagram_bytes(pure_ack_header(i.session), Seq::empty()))
    } else {
        None
    }
}

/// The bytes in an optional reply.
pub open spec fn reply_view(r: Option<Vec<u8>>) -> Option<Seq<u8>> {
    match r {
        Some(v) => Some(v@),
        None => None,
    }
}

/// Appends an event.
fn push_event(events: &mut Vec<SessionEvent>, e: SessionEvent)
    ensures
        event::events_view(final(events)@) == event::events_view(old(events)@).push(e@),
{
    let ghost was = events@;
    events.push(e);
    assert(event::events_view(events@) =~= event::events_view(was).push(e@));
}

impl Session {
    /// The event that delivers a frame.
    fn data_event(&self, f: &FrameRef) -> (e: SessionEvent)
        ensures
            e@ == data_event(self@, f@),
    {
        SessionEvent::Data {
            sess_id: self.sess_id,
            ch: f.ch,
            msg_id: f.msg_id,
            payload: wire::to_vec(f.body),
        }
    }

    /// Takes in one frame; returns whether it is owed an acknowledgement.
    fn handle_frame(
        &mut self,
        header: &DatagramHeader,
        f: &FrameRef,
        now: Nanos,
        events: &mut Vec<SessionEvent>,
        owes_ack: bool,
        stats: &mut Stats,
    ) -> (owes: bool)
        ensures
            (Inbound {
                session: final(self)@,
                events: event::events_view(final(events)@),
                owes_ack: owes,
                stats: final(stats)@,
            }) == frame_received(
                Inbound {
                    session: old(self)@,
                    events: event::events_view(old(events)@),
                    owes_ack,
                    stats: old(stats)@,
                },
                *header,
                f@,
                now,
            ),
    {
        let ghost s0 = self@;
        if self.recv_any {
            record_seq(&mut self.recv_seq, &mut self.recv_bits, header.seq);
        } else {
            self.recv_any = true;
            self.recv_seq = header.seq;
            self.recv_bits = 0;
        }
        let ghost s = self@;
        assert(s =~= recorded(s0, header.seq));
        stats.pkt_bytes_in.incr_by(f.body.len() as u64);
        if f.ch == CH_UNRELIABLE_UNORDERED {
            let e = self.data_event(f);
            push_event(events, e);
            owes_ack
        } else if f.ch == CH_UNRELIABLE_SEQUENCED {
            let newer: bool = match self.ch1_last {
                None => true,
                Some(last) => seq_newer(header.seq, last),
            };
            if newer {
                self.ch1_last = Some(header.seq);
                assert(self@ =~= (SessionData { ch1_last: Some(header.seq), ..s }));
                let e = self.data_event(f);
                push_event(events, e);
            }
            owes_ack
        } else if f.ch == CH_RELIABLE_ORDERED {
            self.handle_ch2(header, f, now, events);
            true
        } else if f.ch == CH_RELIABLE_UNORDERED {
            if !deque_has(&self.ch3_seen, header.seq) {
                deque_push_capped(&mut self.ch3_seen, header.seq, CH3_SEEN_CAP);
                let e = self.data_event(f);
                push_event(events, e);
            }
            true
        } else {
            stats.pkt_bad.incr();
            owes_ack
        }
    }

    /// Takes in the report in a header: drops what it covers from the queues, and samples the
    /// round-trip time.
    fn handle_ack(&mut self, header: &DatagramHeader, now: Nanos, stats: &mut Stats)
        requires
            rtt::rtt_wf(old(self)@.rtt),
        ensures
            final(self)@ == ack_received(old(self)@, *header, now),
            final(stats)@ == ack_counted(old(self)@, *header, old(stats)@),
            rtt::rtt_wf(final(self)@.rtt),
    {
        let ghost s = self@;
        let (acked2, sample2) = self.retrans_ordered.on_ack(header.ack, header.ack_bits, now);
        stats.acks_seen.incr_by(acked2.len() as u64);
        let (acked3, sample3) = self.retrans_unordered.on_ack(header.ack, header.ack_bits, now);
        stats.acks_seen.incr_by(acked3.len() as u64);
        let sample: Option<Nanos> = match sample3 {
            Some(x) => Some(x),
            None => sample2,
        };
        match sample {
            Some(rtt) => {
                self.rtt.update(rtt);
            },
            None => {},
        }
        assert(self@ =~= ack_received(s, *header, now));
    }

    /// Takes in a datagram that names this session; returns the answer to it, if one is owed.
    pub fn handle_packet(
        &mut self,
        from: PeerAddr,
        header: &DatagramHeader,
        frames: &Vec<FrameRef>,
        now: Nanos,
        events: &mut Vec<SessionEvent>,
        stats: &mut Stats,
    ) -> (reply: Option<Vec<u8>>)
        requires
            peer::session_wf(old(self)@),
        ensures
            ({
                let i = packet_received(
                    old(self)@,
                    from,
                    *header,
                    datagram::frame_views(frames@),
                    old(stats)@,
                    now,
                );
                &&& final(self)@ == i.session
                &&& event::events_view(final(events)@) == event::events_view(old(events)@)
                    + i.events
                &&& final(stats)@ == i.stats
                &&& reply_view(reply) == packet_reply(i)
            }),
    {
        let ghost s0 = self@;
        let ghost st0 = stats@;
        let ghost ev0 = event::events_view(events@);
        let ghost views = datagram::frame_views(frames@);
        let ghost want = packet_received(s0, from, *header, views, st0, now);
        if self.peer != from {
            self.peer = from;
            stats.nat_rebind.incr();
        }
        self.last_rx = now;
        assert(self@ =~= (SessionData { peer: from, last_rx: now, ..s0 }));
        match self.state {
            SessionState::Grace { since } => {
                let gap: u32 = gap_in_ms(now, since);
                self.state = SessionState::Active;
                push_event(events, SessionEvent::Resume { sess_id: self.sess_id, gap_ms: gap });
                assert(self@ =~= want.session);
                assert(event::events_view(events@) =~= ev0 + want.events);
                return None;
            },
            SessionState::Active => {},
        }
        self.handle_ack(header, now, stats);
        let ghost start = Inbound {
            session: self@,
            events: Seq::empty(),
            owes_ack: false,
            stats: stats@,
        };
        let mut fresh: Vec<SessionEvent> = Vec::new();
        assert(event::events_view(fresh@) =~= Seq::<Event>::empty());
        let mut owes: bool = false;
        let mut i: usize = 0;
        assert(views.take(0) =~= Seq::<FrameView>::empty());
        while i < frames.len()
            invariant
                i <= frames@.len(),
                views == datagram::frame_views(frames@),
                (Inbound {
                    session: self@,
                    events: event::events_view(fresh@),
                    owes_ack: owes,
                    stats: stats@,
                }) == frames_received(start, *header, views.take(i as int), now),
            decreases frames@.len() - i,
        {
            assert(views.take(i + 1).drop_last() =~= views.take(i as int));
            assert(views.take(i + 1).last() == frames@[i as int]@);
            owes = self.handle_frame(header, &frames[i], now, &mut fresh, owes, stats);
            i = i + 1;
        }
        assert(views.take(i as int) =~= views);
        let ghost got = event::events_view(fresh@);
        let ghost was = events@;
        let ghost more = fresh@;
        events.append(&mut fresh);
        assert(events@ =~= was + more);
        assert(event::events_view(events@) =~= ev0 + got);
        if owes {
            let (ack, ack_bits) = self.compute_ack();
            let resp = DatagramHeader {
                version: VERSION,
                flags: FLAG_PURE_ACK,
                conn_id: self.conn_id,
                seq: self.send_seq,
                ack,
                ack_bits,
            };
            let none: Vec<FrameRef> = Vec::new();
            let mut out: Vec<u8> = Vec::new();
            let _sent = datagram::encode(&resp, none.as_slice(), &mut out);
            assert(datagram::frame_views(none@) =~= Seq::<FrameView>::empty());
            assert(out@ =~= datagram::datagram_bytes(resp, Seq::empty()));
            Some(out)
        } else {
            None
        }
    }
}

// What holds of every session still holds.

/// A frame leaves what every session keeps as it is.
pub proof fn frame_keeps(i: Inbound, h: DatagramHeader, f: FrameView, now: Nanos)
    ensures
        ({
            let t = frame_received(i, h, f, now).session;
            let s = i.session;
            &&& t.conn_id == s.conn_id
            &&& t.sess_id == s.sess_id
            &&& t.peer == s.peer
            &&& t.secret == s.secret
            &&& t.token == s.token
            &&& t.send_seq == s.send_seq
            &&& t.last_rx == s.last_rx
            &&& t.state == s.state
            &&& t.budget_kbps == s.budget_kbps
            &&& t.established == s.established
            &&& t.retrans_ordered == s.retrans_ordered
            &&& t.retrans_unordered == s.retrans_unordered
            &&& t.rtt == s.rtt
            &&& t.frag_group_id == s.frag_group_id
            &&& t.bytes_window == s.bytes_window
        }),
{
    peer::ch2_keeps_the_rest(recorded(i.session, h.seq), h, f, now);
}

/// Frames leave what every session keeps as it is.
pub proof fn frames_keep(i: Inbound, h: DatagramHeader, frames: Seq<FrameView>, now: Nanos)
    ensures
        ({
            let t = frames_received(i, h, frames, now).session;
            let s = i.session;
            &&& t.conn_id == s.conn_id
            &&& t.sess_id == s.sess_id
            &&& t.peer == s.peer
            &&& t.secret == s.secret
            &&& t.token == s.token
            &&& t.send_seq == s.send_seq
            &&& t.last_rx == s.last_rx
            &&& t.state == s.state
            &&& t.budget_kbps == s.budget_kbps
            &&& t.established == s.established
            &&& t.retrans_ordered == s.retrans_ordered
            &&& t.retrans_unordered == s.retrans_unordered
            &&& t.rtt == s.rtt
            &&& t.frag_group_id == s.frag_group_id
            &&& t.bytes_window == s.bytes_window
        }),
    decreases frames.len(),
{
    if frames.len() > 0 {
        frames_keep(i, h, frames.drop_last(), now);
        frame_keeps(frames_received(i, h, frames.drop_last(), now), h, frames.last(), now);
    }
}

/// A sample keeps the averages in range.
proof fn sampled_wf(s: rtt::RttState, x: Nanos)
    requires
        rtt::rtt_wf(s),
    ensures
        rtt::rtt_wf(rtt::sampled(s, x)),
{
}

/// A datagram keeps who the session is, and what holds of every session. The session follows the
/// peer, and is active afterwards.
pub proof fn packet_keeps_the_session(
    s: SessionData,
    from: PeerAddr,
    h: DatagramHeader,
    frames: Seq<FrameView>,
    stats: StatsSnapshot,
    now: Nanos,
)
    ensures
        ({
            let t = packet_received(s, from, h, frames, stats, now).session;
            &&& t.conn_id == s.conn_id
            &&& t.sess_id == s.sess_id
            &&& t.secret == s.secret
            &&& t.token == s.token
            &&& t.send_seq == s.send_seq
            &&& t.budget_kbps == s.budget_kbps
            &&& t.established == s.established
            &&& t.frag_group_id == s.frag_group_id
            &&& t.bytes_window == s.bytes_window
            &&& t.peer == from
            &&& t.last_rx == now
            &&& t.state == SessionState::Active
            &&& peer::session_wf(s) ==> peer::session_wf(t)
        }),
{
    let st = if s.peer != from {
        StatsSnapshot { nat_rebind: stats::count_sum(stats.nat_rebind, 1), ..stats }
    } else {
        stats
    };
    let u = SessionData { peer: from, last_rx: now, ..s };
    let a = ack_received(u, h, now);
    match ack_sample(u, h, now) {
        Some(x) => {
            if peer::session_wf(s) {
                sampled_wf(s.rtt, x);
            }
        },
        None => {},
    }
    retransmit::only_covered_packets_leave(s.retrans_ordered, h.ack, h.ack_bits);
    retransmit::only_covered_packets_leave(s.retrans_unordered, h.ack, h.ack_bits);
    frames_keep(
        Inbound {
            session: a,
            events: Seq::empty(),
            owes_ack: false,
            stats: ack_counted(u, h, st),
        },
        h,
        frames,
        now,
    );
}

} // verus!
