//! What time does to sessions: silence, grace, retransmission, shutdown.

use vstd::prelude::*;

use crate::addr::PeerAddr;
use crate::protocol::types::{Nanos, MILLISECOND};
use crate::reliable::fragment;
use crate::reliable::retransmit::{self, Pending};
use crate::reliable::rtt;
use crate::session::event::{self, Event, SessionEvent, CLOSE_GRACE_TIMEOUT, CLOSE_SHUTDOWN};
use crate::session::peer::{self, Session, SessionData, SessionState};
use crate::session::table::send;
use crate::session::table::{SessionTable, SessionTableConfig, TableData};
use crate::stats::{self, StatsSnapshot};

verus! {

/// Whether the bounds of the adaptive limits are the right way round.
pub open spec fn bounds_ordered(cfg: SessionTableConfig) -> bool {
    cfg.dynamic_timeouts ==> cfg.timeout_min <= cfg.timeout_max && cfg.reconnect_min
        <= cfg.reconnect_max
}

/// `x`, or the bound that it lies beyond.
pub open spec fn clamped(x: int, low: Nanos, high: Nanos) -> Nanos {
    if x < low {
        low
    } else if x > high {
        high
    } else {
        x as Nanos
    }
}

/// How long a session may stay silent: thirty round trips, within bounds; the longest time there
/// is while the round trip is unknown.
pub open spec fn idle_limit(cfg: SessionTableConfig, s: SessionData) -> Nanos {
    let srtt = rtt::srtt_ms_of(s.rtt);
    if !cfg.dynamic_timeouts {
        cfg.idle_grace
    } else if srtt == 0 {
        cfg.timeout_max
    } else {
        clamped(30 * srtt * MILLISECOND, cfg.timeout_min, cfg.timeout_max)
    }
}

/// How long the grace period of a session is: a hundred and twenty round trips, within bounds;
/// the longest time there is while the round trip is unknown.
pub open spec fn grace_limit(cfg: SessionTableConfig, s: SessionData) -> Nanos {
    let srtt = rtt::srtt_ms_of(s.rtt);
    if !cfg.dynamic_timeouts {
        cfg.reconnect_grace
    } else if srtt == 0 {
        cfg.reconnect_max
    } else {
        clamped(120 * srtt * MILLISECOND, cfg.reconnect_min, cfg.reconnect_max)
    }
}

/// Whether an active session has been silent for too long.
pub open spec fn goes_idle(cfg: SessionTableConfig, s: SessionData, now: Nanos) -> bool {
    s.state == SessionState::Active && retransmit::elapsed(now, s.last_rx) >= idle_limit(cfg, s)
}

/// Whether the grace period of a session is over.
pub open spec fn is_over(cfg: SessionTableConfig, s: SessionData, now: Nanos) -> bool {
    s.state matches SessionState::Grace { since } && retransmit::elapsed(now, since) >= grace_limit(
        cfg,
        s,
    )
}

/// Whether the bounds of the time of silence are the right way round, if they come into play.
pub open spec fn has_idle_limit(cfg: SessionTableConfig, s: SessionData) -> bool {
    cfg.dynamic_timeouts && rtt::srtt_ms_of(s.rtt) != 0 ==> cfg.timeout_min <= cfg.timeout_max
}

/// Whether the bounds of the grace period are the right way round, if they come into play.
pub open spec fn has_grace_limit(cfg: SessionTableConfig, s: SessionData) -> bool {
    cfg.dynamic_timeouts && rtt::srtt_ms_of(s.rtt) != 0 ==> cfg.reconnect_min <= cfg.reconnect_max
}

/// Whether it can be told what time does to a session.
pub open spec fn can_age(cfg: SessionTableConfig, s: SessionData) -> bool {
    match s.state {
        SessionState::Active => has_idle_limit(cfg, s),
        SessionState::Grace { .. } => has_grace_limit(cfg, s),
    }
}

/// What time does to one session: a silent one enters the grace period; one whose grace period is
/// over is closed.
pub open spec fn aged(t: TableData, k: u32, now: Nanos) -> (TableData, Seq<Event>) {
    let s = t.sessions[k];
    if goes_idle(t.cfg, s, now) {
        (
            TableData {
                sessions: t.sessions.insert(
                    k,
                    SessionData { state: SessionState::Grace { since: now }, ..s },
                ),
                stats: StatsSnapshot {
                    sessions_grace: stats::count_sum(t.stats.sessions_grace, 1),
                    ..t.stats
                },
                ..t
            },
            Seq::empty(),
        )
    } else if is_over(t.cfg, s, now) {
        (
            send::closed(t, k),
            seq![Event::Close { sess_id: s.sess_id, reason: CLOSE_GRACE_TIMEOUT }],
        )
    } else {
        (t, Seq::empty())
    }
}

/// What time does to the sessions in `order`, one after the other.
pub open spec fn all_aged(t: TableData, order: Seq<u32>, now: Nanos) -> (TableData, Seq<Event>)
    decreases order.len(),
{
    if order.len() == 0 {
        (t, Seq::empty())
    } else {
        let (u, events) = all_aged(t, order.drop_last(), now);
        let (v, more) = aged(u, order.last(), now);
        (v, events + more)
    }
}

/// Whether a list names every session once.
pub open spec fn is_walk(t: TableData, order: Seq<u32>) -> bool {
    order.no_duplicates() && forall|k: u32| #[trigger]
        order.contains(k) <==> t.sessions.contains_key(k)
}

/// The packets of a session that are sent again.
pub open spec fn resends(s: SessionData, now: Nanos) -> Seq<(Seq<u8>, PeerAddr)> {
    let rto = rtt::rto_of(s.rtt);
    (retransmit::due_packets(s.retrans_ordered, now, rto) + retransmit::due_packets(
        s.retrans_unordered,
        now,
        rto,
    )).map_values(|p: (u16, Seq<u8>)| (p.1, s.peer))
}

/// A session after its packets were sent again and its stale fragments were dropped.
pub open spec fn refreshed(s: SessionData, now: Nanos) -> SessionData {
    let rto = rtt::rto_of(s.rtt);
    SessionData {
        retrans_ordered: retransmit::resent(s.retrans_ordered, now, rto),
        retrans_unordered: retransmit::resent(s.retrans_unordered, now, rto),
        assembly: fragment::cleaned(s.assembly, now),
        ..s
    }
}

/// What the reliable layer does for the sessions in `order`: the table afterwards, and what is
/// sent again.
pub open spec fn all_refreshed(t: TableData, order: Seq<u32>, now: Nanos) -> (
    TableData,
    Seq<(Seq<u8>, PeerAddr)>,
)
    decreases order.len(),
{
    if order.len() == 0 {
        (t, Seq::empty())
    } else {
        let (u, out) = all_refreshed(t, order.drop_last(), now);
        let s = u.sessions[order.last()];
        (
            TableData {
                sessions: u.sessions.insert(order.last(), refreshed(s, now)),
                stats: StatsSnapshot {
                    retransmits: stats::count_sum(
                        u.stats.retransmits,
                        resends(s, now).len() as u64,
                    ),
                    ..u.stats
                },
                ..u
            },
            out + resends(s, now),
        )
    }
}

/// Closes the sessions in `order`.
pub open spec fn all_closed(t: TableData, order: Seq<u32>) -> (TableData, Seq<Event>)
    decreases order.len(),
{
    if order.len() == 0 {
        (t, Seq::empty())
    } else {
        let (u, events) = all_closed(t, order.drop_last());
        (
            send::closed(u, order.last()),
            events.push(
                Event::Close { sess_id: u.sessions[order.last()].sess_id, reason: CLOSE_SHUTDOWN },
            ),
        )
    }
}

/// A time within bounds.
fn clamp(x: u64, low: Nanos, high: Nanos) -> (r: Nanos)
    requires
        low <= high,
    ensures
        r == clamped(x as int, low, high),
{
    if x < low {
        low
    } else if x > high {
        high
    } else {
        x
    }
}

impl SessionTable {
    /// How long a session may stay silent.
    pub fn idle_grace_for(&self, s: &Session) -> (r: Nanos)
        requires
            has_idle_limit(self@.cfg, s@),
        ensures
            r == idle_limit(self@.cfg, s@),
    {
        if !self.cfg.dynamic_timeouts {
            return self.cfg.idle_grace;
        }
        let srtt: u16 = s.rtt.srtt_ms();
        if srtt == 0 {
            return self.cfg.timeout_max;
        }
        clamp(30 * srtt as u64 * MILLISECOND, self.cfg.timeout_min, self.cfg.timeout_max)
    }

    /// How long the grace period of a session is.
    pub fn reconnect_grace_for(&self, s: &Session) -> (r: Nanos)
        requires
            has_grace_limit(self@.cfg, s@),
        ensures
            r == grace_limit(self@.cfg, s@),
    {
        if !self.cfg.dynamic_timeouts {
            return self.cfg.reconnect_grace;
        }
        let srtt: u16 = s.rtt.srtt_ms();
        if srtt == 0 {
            return self.cfg.reconnect_max;
        }
        clamp(120 * srtt as u64 * MILLISECOND, self.cfg.reconnect_min, self.cfg.reconnect_max)
    }

    /// Moves sessions that were silent for too long into the grace period, and closes those whose
    /// grace period is over. The sessions are taken in some order.
    pub fn maintain(&mut self, now: Nanos) -> (events: Vec<SessionEvent>)
        requires
            old(self).wf(),
            forall|k: u32| #[trigger]
                old(self)@.sessions.contains_key(k) ==> can_age(
                    old(self)@.cfg,
                    old(self)@.sessions[k],
                ),
        ensures
            final(self).wf(),
            exists|order: Seq<u32>| #[trigger]
                is_walk(old(self)@, order) && (final(self)@, event::events_view(events@))
                    == all_aged(old(self)@, order, now),
    {
        let ghost t = self@;
        let ids = self.store.conn_ids();
        let mut events: Vec<SessionEvent> = Vec::new();
        assert(event::events_view(events@) =~= Seq::<Event>::empty());
        assert(is_walk(t, ids@));
        let mut i: usize = 0;
        assert(ids@.take(0) =~= Seq::<u32>::empty());
        assert forall|j: int| 0 <= j < ids@.len() implies self@.sessions.contains_key(
            #[trigger] ids@[j],
        ) by {
            assert(ids@.contains(ids@[j]));
        }
        while i < ids.len()
            invariant
                self.wf(),
                i <= ids@.len(),
                is_walk(t, ids@),
                forall|k: u32| #[trigger]
                    t.sessions.contains_key(k) ==> can_age(t.cfg, t.sessions[k]),
                self@.cfg == t.cfg,
                (self@, event::events_view(events@)) == all_aged(t, ids@.take(i as int), now),
                forall|j: int|
                    i <= j < ids@.len() ==> self@.sessions.contains_key(#[trigger] ids@[j])
                        && self@.sessions[ids@[j]] == t.sessions[ids@[j]],
            decreases ids@.len() - i,
        {
            let k: u32 = ids[i];
            let ghost u = self@;
            assert(ids@.contains(k));
            assert(can_age(t.cfg, u.sessions[k]));
            let ghost seen = event::events_view(events@);
            assert(ids@.take(i + 1).drop_last() =~= ids@.take(i as int));
            assert(u.sessions.contains_key(ids@[i as int]));
            let ghost want = aged(u, k, now);
            match self.store.take(k) {
                Some(taken) => {
                    let mut s = taken;
                    match s.state {
                        SessionState::Active => {
                            if now.saturating_sub(s.last_rx) >= self.idle_grace_for(&s) {
                                s.state = SessionState::Grace { since: now };
                                self.stats.sessions_grace.incr();
                            }
                            let ghost after = s@;
                            self.store.put(k, s);
                            assert(after =~= (SessionData {
                                state: after.state,
                                ..u.sessions[k]
                            }));
                            proof {
                                send::update_keeps_wf(u, k, after);
                            }
                            assert(self@.sessions =~= want.0.sessions);
                            assert(self@ =~= want.0);
                            assert(seen + want.1 =~= seen);
                        },
                        SessionState::Grace { since } => {
                            if now.saturating_sub(since) >= self.reconnect_grace_for(&s) {
                                self.stats.sessions_active.decr();
                                let e = SessionEvent::Close {
                                    sess_id: s.sess_id,
                                    reason: CLOSE_GRACE_TIMEOUT,
                                };
                                let ghost was = events@;
                                events.push(e);
                                assert(self@ =~= send::closed(u, k));
                                assert(event::events_view(events@) =~= seen + want.1);
                            } else {
                                self.store.put(k, s);
                                assert(self@.sessions =~= u.sessions);
                                assert(self@ =~= u);
                                assert(seen + want.1 =~= seen);
                            }
                        },
                    }
                },
                None => {},
            }
            i = i + 1;
        }
        assert(ids@.take(i as int) =~= ids@);
        events
    }

    /// Sends again what has waited for too long, and drops stale fragments. The sessions are taken
    /// in some order.
    pub fn maintain_reliable(&mut self, now: Nanos) -> (out: Vec<(Vec<u8>, PeerAddr)>)
        requires
            old(self).wf(),
        ensures
            final(self).wf(),
            exists|order: Seq<u32>| #[trigger]
                is_walk(old(self)@, order) && (final(self)@, send::datagrams_view(out@))
                    == all_refreshed(old(self)@, order, now),
    {
        let ghost t = self@;
        let ids = self.store.conn_ids();
        let mut out: Vec<(Vec<u8>, PeerAddr)> = Vec::new();
        assert(send::datagrams_view(out@) =~= Seq::<(Seq<u8>, PeerAddr)>::empty());
        assert(is_walk(t, ids@));
        let mut i: usize = 0;
        assert(ids@.take(0) =~= Seq::<u32>::empty());
        assert forall|j: int| 0 <= j < ids@.len() implies self@.sessions.contains_key(
            #[trigger] ids@[j],
        ) by {
            assert(ids@.contains(ids@[j]));
        }
        while i < ids.len()
            invariant
                self.wf(),
                i <= ids@.len(),
                is_walk(t, ids@),
                (self@, send::datagrams_view(out@)) == all_refreshed(t, ids@.take(i as int), now),
                self@.sessions.dom() == t.sessions.dom(),
            decreases ids@.len() - i,
        {
            let k: u32 = ids[i];
            let ghost u = self@;
            let ghost seen = send::datagrams_view(out@);
            assert(ids@.take(i + 1).drop_last() =~= ids@.take(i as int));
            assert(ids@.contains(k));
            assert(u.sessions.dom().contains(k));
            match self.store.take(k) {
                Some(taken) => {
                    let mut s = taken;
                    let n: usize = s.refresh(now, &mut out);
                    let ghost after = s@;
                    proof {
                        send::update_keeps_wf(u, k, after);
                    }
                    self.store.put(k, s);
                    self.stats.retransmits.incr_by(n as u64);
                    let ghost want = all_refreshed(t, ids@.take(i + 1), now);
                    assert(self@.sessions =~= want.0.sessions);
                    assert(self@ =~= want.0);
                    assert(self@.sessions.dom() =~= t.sessions.dom());
                },
                None => {},
            }
            i = i + 1;
        }
        assert(ids@.take(i as int) =~= ids@);
        out
    }

    /// Closes every session, because the engine shuts down. The sessions are taken in some order.
    pub fn drain(&mut self) -> (events: Vec<SessionEvent>)
        requires
            old(self).wf(),
        ensures
            final(self).wf(),
            exists|order: Seq<u32>| #[trigger]
                is_walk(old(self)@, order) && (final(self)@, event::events_view(events@))
                    == all_closed(old(self)@, order),
    {
        let ghost t = self@;
        let ids = self.store.conn_ids();
        let mut events: Vec<SessionEvent> = Vec::new();
        assert(event::events_view(events@) =~= Seq::<Event>::empty());
        assert(is_walk(t, ids@));
        let mut i: usize = 0;
        assert(ids@.take(0) =~= Seq::<u32>::empty());
        assert forall|j: int| 0 <= j < ids@.len() implies self@.sessions.contains_key(
            #[trigger] ids@[j],
        ) by {
            assert(ids@.contains(ids@[j]));
        }
        while i < ids.len()
            invariant
                self.wf(),
                i <= ids@.len(),
                is_walk(t, ids@),
                (self@, event::events_view(events@)) == all_closed(t, ids@.take(i as int)),
                forall|j: int|
                    i <= j < ids@.len() ==> self@.sessions.contains_key(#[trigger] ids@[j]),
            decreases ids@.len() - i,
        {
            let k: u32 = ids[i];
            let ghost u = self@;
            let ghost seen = event::events_view(events@);
            assert(ids@.take(i + 1).drop_last() =~= ids@.take(i as int));
            assert(u.sessions.contains_key(ids@[i as int]));
            match self.store.take(k) {
                Some(s) => {
                    self.stats.sessions_active.decr();
                    let e = SessionEvent::Close { sess_id: s.sess_id, reason: CLOSE_SHUTDOWN };
                    let ghost ev = e@;
                    events.push(e);
                    assert(self@ =~= send::closed(u, k));
                    assert(event::events_view(events@) =~= seen.push(ev));
                },
                None => {},
            }
            i = i + 1;
        }
        assert(ids@.take(i as int) =~= ids@);
        events
    }

    /// What `f` makes of each session, in some order.
    pub fn for_each_session<T, F: Fn(&Session) -> T>(&self, f: F) -> (out: Vec<T>)
        requires
            self.wf(),
            forall|s: &Session| #[trigger] f.requires((s,)),
        ensures
            exists|order: Seq<u32>| #[trigger] is_walk(self@, order) && is_map_of(
                self@,
                order,
                f,
                out@,
            ),
    {
        let ids = self.store.conn_ids();
        let mut out: Vec<T> = Vec::new();
        let mut i: usize = 0;
        assert(is_walk(self@, ids@));
        while i < ids.len()
            invariant
                self.wf(),
                i <= ids@.len(),
                is_walk(self@, ids@),
                forall|s: &Session| #[trigger] f.requires((s,)),
                is_map_of(self@, ids@.take(i as int), f, out@),
            decreases ids@.len() - i,
        {
            let k: u32 = ids[i];
            assert(ids@.contains(k));
            match self.store.get(k) {
                Some(s) => {
                    let ghost was = out@;
                    let x = f(s);
                    out.push(x);
                    assert(made_by(f, s@, x));
                    assert forall|j: int| 0 <= j < i + 1 implies made_by(
                        f,
                        self@.sessions[ids@.take(i + 1)[j]],
                        #[trigger] out@[j],
                    ) by {
                        if j < i {
                            assert(ids@.take(i + 1)[j] == ids@.take(i as int)[j]);
                            assert(out@[j] == was[j]);
                        }
                    }
                },
                None => {},
            }
            i = i + 1;
        }
        assert(ids@.take(i as int) =~= ids@);
        out
    }
}

/// Whether `x` is what `f` may make of a session.
pub open spec fn made_by<T, F: Fn(&Session) -> T>(f: F, s: SessionData, x: T) -> bool {
    exists|e: Session| e@ == s && #[trigger] f.ensures((&e,), x)
}

/// Whether a list holds what `f` makes of the sessions in `order`.
pub open spec fn is_map_of<T, F: Fn(&Session) -> T>(
    t: TableData,
    order: Seq<u32>,
    f: F,
    out: Seq<T>,
) -> bool {
    out.len() == order.len() && forall|j: int|
        0 <= j < order.len() ==> made_by(f, t.sessions[order[j]], #[trigger] out[j])
}

/// Adds outgoing packets to a list of datagrams.
fn add_packets(out: &mut Vec<(Vec<u8>, PeerAddr)>, packets: Vec<(u16, Vec<u8>)>, to: PeerAddr)
    ensures
        send::datagrams_view(final(out)@) == send::datagrams_view(old(out)@)
            + retransmit::packets_view(packets@).map_values(|p: (u16, Seq<u8>)| (p.1, to)),
{
    let ghost start = send::datagrams_view(out@);
    let ghost want = retransmit::packets_view(packets@).map_values(|p: (u16, Seq<u8>)| (p.1, to));
    let mut i: usize = 0;
    while i < packets.len()
        invariant
            i <= packets@.len(),
            want == retransmit::packets_view(packets@).map_values(|p: (u16, Seq<u8>)| (p.1, to)),
            send::datagrams_view(out@) =~= start + want.take(i as int),
        decreases packets@.len() - i,
    {
        let copy = crate::wire::to_vec(packets[i].1.as_slice());
        let ghost was = out@;
        out.push((copy, to));
        assert(send::datagrams_view(out@) =~= send::datagrams_view(was).push((copy@, to)));
        i = i + 1;
    }
    assert(want.take(i as int) =~= want);
}

impl Session {
    /// Adds the packets that have waited for too long to `out`, drops stale fragments, and returns
    /// how many packets there were.
    fn refresh(&mut self, now: Nanos, out: &mut Vec<(Vec<u8>, PeerAddr)>) -> (n: usize)
        requires
            peer::session_wf(old(self)@),
        ensures
            final(self)@ == refreshed(old(self)@, now),
            send::datagrams_view(final(out)@) == send::datagrams_view(old(out)@) + resends(
                old(self)@,
                now,
            ),
            n == resends(old(self)@, now).len(),
            peer::session_wf(final(self)@),
            final(self)@.conn_id == old(self)@.conn_id,
            final(self)@.sess_id == old(self)@.sess_id,
    {
        let ghost s = self@;
        let ghost start = send::datagrams_view(out@);
        let rto: Nanos = self.rtt.rto();
        let due2 = self.retrans_ordered.retransmit_due(now, rto);
        let due3 = self.retrans_unordered.retransmit_due(now, rto);
        self.assembler.cleanup(now);
        let ghost p2 = retransmit::packets_view(due2@);
        let ghost p3 = retransmit::packets_view(due3@);
        proof {
            due_bound(s.retrans_ordered, now, rto);
            due_bound(s.retrans_unordered, now, rto);
            assert(p2.len() == due2@.len());
            assert(p3.len() == due3@.len());
        }
        let n: usize = due2.len() + due3.len();
        add_packets(out, due2, self.peer);
        add_packets(out, due3, self.peer);
        assert(send::datagrams_view(out@) =~= start + resends(s, now));
        assert(self@ =~= refreshed(s, now));
        n
    }
}

/// No more packets are due than wait.
proof fn due_bound(q: Seq<Pending>, now: Nanos, rto: Nanos)
    ensures
        retransmit::due_packets(q, now, rto).len() <= q.len(),
    decreases q.len(),
{
    if q.len() > 0 {
        due_bound(q.drop_last(), now, rto);
    }
}

/// Time does not change the configuration.
pub proof fn all_aged_keeps_cfg(t: TableData, order: Seq<u32>, now: Nanos)
    ensures
        all_aged(t, order, now).0.cfg == t.cfg,
    decreases order.len(),
{
    if order.len() > 0 {
        all_aged_keeps_cfg(t, order.drop_last(), now);
    }
}

/// The reliable layer does not change the configuration.
pub proof fn all_refreshed_keeps_cfg(t: TableData, order: Seq<u32>, now: Nanos)
    ensures
        all_refreshed(t, order, now).0.cfg == t.cfg,
    decreases order.len(),
{
    if order.len() > 0 {
        all_refreshed_keeps_cfg(t, order.drop_last(), now);
    }
}

/// A shutdown does not change the configuration.
pub proof fn all_closed_keeps_cfg(t: TableData, order: Seq<u32>)
    ensures
        all_closed(t, order).0.cfg == t.cfg,
    decreases order.len(),
{
    if order.len() > 0 {
        all_closed_keeps_cfg(t, order.drop_last());
    }
}

} // verus!
