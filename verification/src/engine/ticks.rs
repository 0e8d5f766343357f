//! What the engine does on its own as time passes.

use vstd::prelude::*;

use crate::addr::PeerAddr;
use crate::engine::laws;
use crate::engine::{self, EngineData};
use crate::error::ProtocolError;
use crate::protocol::datagram::{self, DatagramHeader, FrameView};
use crate::protocol::types::Nanos;
use crate::reliable::rtt;
use crate::session::event::Event;
use crate::session::peer::{self, SessionData, SessionState};
use crate::session::table::laws as table_laws;
use crate::session::table::lifecycle;
use crate::session::table::maintain;
use crate::session::table::{self, TableData};

verus! {

// Heartbeats.

/// Whether a session is active and nothing came from it for a second.
pub open spec fn has_been_quiet(s: SessionData, now: Nanos) -> bool {
    s.state == SessionState::Active && s.last_rx + 1_000_000_000 <= now
}

/// How many of the sessions in `order` have been quiet.
pub open spec fn quiet_in(t: TableData, order: Seq<u32>, now: Nanos) -> nat
    decreases order.len(),
{
    if order.len() == 0 {
        0
    } else if has_been_quiet(t.sessions[order.last()], now) {
        quiet_in(t, order.drop_last(), now) + 1
    } else {
        quiet_in(t, order.drop_last(), now)
    }
}

/// Whether a datagram is the heartbeat of a session that has been quiet.
pub open spec fn is_beat(t: TableData, now: Nanos, d: (Seq<u8>, PeerAddr)) -> bool {
    exists|k: u32| #[trigger]
        t.sessions.contains_key(k) && has_been_quiet(t.sessions[k], now) && d == (
            engine::heartbeat_bytes(t.sessions[k]),
            t.sessions[k].peer,
        )
}

/// A heartbeat is a header and nothing else: it names the connection, has the next sequence number,
/// which it does not use up, and says what the session has received.
pub proof fn heartbeats_are_bare_headers(s: SessionData)
    ensures
        datagram::parse(engine::heartbeat_bytes(s)) == Ok::<
            (DatagramHeader, Seq<FrameView>),
            ProtocolError,
        >(
            (
                DatagramHeader {
                    version: 1,
                    flags: 0,
                    conn_id: s.conn_id,
                    seq: s.send_seq,
                    ack: peer::ack_of(s),
                    ack_bits: peer::ack_bits_of(s),
                },
                Seq::<FrameView>::empty(),
            ),
        ),
        engine::heartbeat_bytes(s).len() == 16,
{
    let h = DatagramHeader {
        version: 1,
        flags: 0,
        conn_id: s.conn_id,
        seq: s.send_seq,
        ack: peer::ack_of(s),
        ack_bits: peer::ack_bits_of(s),
    };
    datagram::decode_inverts_encode(h, Seq::<FrameView>::empty());
    datagram::header_bytes_len(h);
}

/// What part of a walk has to say to quiet sessions.
proof fn beats_so_far(t: TableData, order: Seq<u32>, now: Nanos)
    requires
        forall|k: u32| #[trigger] order.contains(k) ==> t.sessions.contains_key(k),
    ensures
        ({
            let out = engine::heartbeats(t, order, now);
            &&& out.len() == quiet_in(t, order, now)
            &&& forall|k: u32| #[trigger]
                order.contains(k) && has_been_quiet(t.sessions[k], now) ==> out.contains(
                    (engine::heartbeat_bytes(t.sessions[k]), t.sessions[k].peer),
                )
            &&& forall|j: int| 0 <= j < out.len() ==> is_beat(t, now, #[trigger] out[j])
        }),
    decreases order.len(),
{
    if order.len() > 0 {
        let first = order.drop_last();
        let last = order.last();
        assert(order[order.len() - 1] == last);
        assert(order.contains(last));
        assert forall|k: u32| #[trigger] first.contains(k) implies t.sessions.contains_key(k) by {
            let i = first.index_of(k);
            assert(order[i] == k);
            assert(order.contains(k));
        }
        beats_so_far(t, first, now);
        let was = engine::heartbeats(t, first, now);
        let is = engine::heartbeats(t, order, now);
        assert forall|k: u32| #[trigger]
            order.contains(k) && has_been_quiet(t.sessions[k], now) implies is.contains(
            (engine::heartbeat_bytes(t.sessions[k]), t.sessions[k].peer),
        ) by {
            let b = (engine::heartbeat_bytes(t.sessions[k]), t.sessions[k].peer);
            if k == last {
                assert(is[is.len() - 1] == b);
            } else {
                let i = order.index_of(k);
                assert(first[i] == k);
                assert(first.contains(k));
                let j = was.index_of(b);
                assert(is[j] == b);
            }
        }
        assert forall|j: int| 0 <= j < is.len() implies is_beat(t, now, #[trigger] is[j]) by {
            if j < was.len() {
                assert(is[j] == was[j]);
            } else {
                assert(t.sessions.contains_key(last));
            }
        }
    }
}

/// Once a second every active session that has been quiet for a second gets a heartbeat, at its
/// address, and nobody else gets one.
pub proof fn quiet_sessions_hear_a_heartbeat(
    d: EngineData,
    now: Nanos,
    e: EngineData,
    out: Seq<(Seq<u8>, PeerAddr)>,
)
    requires
        engine::is_beaten(d, now, e, out),
    ensures
        now < d.last_heartbeat + 1_000_000_000 ==> e == d && out.len() == 0,
        now >= d.last_heartbeat + 1_000_000_000 ==> {
            &&& e == (EngineData { last_heartbeat: now, ..d })
            &&& forall|k: u32| #[trigger]
                d.table.sessions.contains_key(k) && has_been_quiet(d.table.sessions[k], now)
                    ==> out.contains(
                    (engine::heartbeat_bytes(d.table.sessions[k]), d.table.sessions[k].peer),
                )
            &&& forall|j: int| 0 <= j < out.len() ==> is_beat(d.table, now, #[trigger] out[j])
            &&& exists|order: Seq<u32>| #[trigger]
                maintain::is_walk(d.table, order) && out.len() == quiet_in(d.table, order, now)
        },
{
    if now >= d.last_heartbeat + 1_000_000_000 {
        let order = choose|order: Seq<u32>| #[trigger]
            maintain::is_walk(d.table, order) && out == engine::heartbeats(d.table, order, now);
        assert(maintain::is_walk(d.table, order) && out == engine::heartbeats(
            d.table,
            order,
            now,
        ));
        beats_so_far(d.table, order, now);
        assert forall|k: u32| #[trigger]
            d.table.sessions.contains_key(k) && has_been_quiet(
                d.table.sessions[k],
                now,
            ) implies out.contains(
            (engine::heartbeat_bytes(d.table.sessions[k]), d.table.sessions[k].peer),
        ) by {
            assert(order.contains(k));
        }
    }
}

// Ticks.

/// What a tick does to one session that it does not end.
pub open spec fn is_ticked(was: SessionData, is: SessionData, idle: Nanos, now: Nanos) -> bool {
    let rto = rtt::rto_of(was.rtt);
    &&& was.state == SessionState::Active && was.last_rx + idle <= now ==> is.state == (
    SessionState::Grace { since: now })
    &&& !(was.state == SessionState::Active && was.last_rx + idle <= now) && idle > 0 ==> is.state
        == was.state
    &&& lifecycle::went_out(was.retrans_ordered, is.retrans_ordered, now, rto)
    &&& lifecycle::went_out(was.retrans_unordered, is.retrans_unordered, now, rto)
    &&& is == (SessionData {
        state: is.state,
        retrans_ordered: is.retrans_ordered,
        retrans_unordered: is.retrans_unordered,
        assembly: is.assembly,
        ..was
    })
}

/// A tick ages every session, whether or not the logic server is there. Active ones that were
/// silent for their limit enter the grace period; those whose grace period is over are gone, and a
/// logic server that is there is told so, however full its queue is; of the rest every packet that
/// was last sent a timeout ago or longer goes out again.
pub proof fn ticks_age_and_resend(
    d: EngineData,
    now: Nanos,
    e: EngineData,
    out: Seq<(Seq<u8>, PeerAddr)>,
    k: u32,
    i: int,
)
    requires
        table::table_wf(d.table),
        engine::is_tick(d, now, e, out),
        d.table.sessions.contains_key(k),
        maintain::grace_limit(d.table.cfg, d.table.sessions[k]) > 0,
    ensures
        ({
            let s = d.table.sessions[k];
            let ended = lifecycle::has_ended(d.table, k, now);
            &&& e.table.sessions.contains_key(k) <==> !ended
            &&& ended && d.online ==> e.up.contains(
                engine::event_frame(Event::Close { sess_id: s.sess_id, reason: 1 }),
            )
            &&& !ended ==> is_ticked(
                s,
                e.table.sessions[k],
                maintain::idle_limit(d.table.cfg, s),
                now,
            )
            &&& !ended && 0 <= i < s.retrans_ordered.len() && lifecycle::is_overdue(
                s,
                s.retrans_ordered[i],
                now,
            ) ==> out.contains((s.retrans_ordered[i].datagram, s.peer))
            &&& !ended && 0 <= i < s.retrans_unordered.len() && lifecycle::is_overdue(
                s,
                s.retrans_unordered[i],
                now,
            ) ==> out.contains((s.retrans_unordered[i].datagram, s.peer))
        }),
{
    let (a, b, x, y) = tick_steps(d, now, e, out);
    let s = d.table.sessions[k];
    let first = choose|order: Seq<u32>| #[trigger]
        maintain::is_walk(d.table, order) && a == engine::aged_by(d, order, now);
    assert(maintain::is_walk(d.table, first) && a == engine::aged_by(d, first, now));
    let (t, events) = maintain::all_aged(d.table, first, now);
    let w = EngineData { table: t, ..d };
    crate::engine::duties::events_touch_the_queue_only(w, events, now);
    assert(a.table == t);
    let second = choose|order: Seq<u32>| #[trigger]
        maintain::is_walk(a.table, order) && {
            let (u, more) = maintain::all_refreshed(a.table, order, now);
            b == (EngineData { table: u, ..a }) && x == more
        };
    assert(maintain::is_walk(a.table, second));
    lifecycle::ageing_keeps_the_table_sound(d.table, first, now);
    lifecycle::ageing_changes_only_sessions(d.table, first, now);
    lifecycle::packets_wait_until_acknowledged(t, second, now, k);
    quiet_sessions_hear_a_heartbeat(b, now, e, y);
    assert(e.table == b.table);
    match s.state {
        SessionState::Active => {
            lifecycle::silent_sessions_enter_the_grace_period(d.table, first, now, k);
        },
        SessionState::Grace { since } => {
            lifecycle::grace_periods_end(d.table, first, now, k, since);
        },
    }
    if lifecycle::has_ended(d.table, k, now) {
        if d.online {
            closes_are_told(d, first, now, k);
            let f = engine::event_frame(Event::Close { sess_id: s.sess_id, reason: 1 });
            assert(a.up.contains(f));
            assert(e.up == a.up);
        }
    } else {
        aged_sessions_keep_their_packets(d.table, first, now, k);
        lifecycle::lost_packets_are_sent_again(t, second, now, k, i);
        assert forall|z: (Seq<u8>, PeerAddr)| #[trigger] x.contains(z) implies out.contains(z) by {
            let j = x.index_of(z);
            assert(out[j] == z);
        }
    }
}

/// The steps of a tick.
proof fn tick_steps(
    d: EngineData,
    now: Nanos,
    e: EngineData,
    out: Seq<(Seq<u8>, PeerAddr)>,
) -> (r: (EngineData, EngineData, Seq<(Seq<u8>, PeerAddr)>, Seq<(Seq<u8>, PeerAddr)>))
    requires
        engine::is_tick(d, now, e, out),
    ensures
        engine::is_aged(d, now, r.0),
        engine::is_resent(r.0, now, r.1, r.2),
        engine::is_beaten(r.1, now, e, r.3),
        out == r.2 + r.3,
{
    let (a, b, x, y) = choose|
        a: EngineData,
        b: EngineData,
        x: Seq<(Seq<u8>, PeerAddr)>,
        y: Seq<(Seq<u8>, PeerAddr)>,
    |
        {
            &&& #[trigger] engine::is_aged(d, now, a)
            &&& #[trigger] engine::is_resent(a, now, b, x)
            &&& #[trigger] engine::is_beaten(b, now, e, y)
            &&& out == x + y
        };
    (a, b, x, y)
}

/// Ageing changes nothing of a session but its state.
proof fn aged_sessions_keep_their_packets(t: TableData, order: Seq<u32>, now: Nanos, k: u32)
    requires
        maintain::is_walk(t, order),
        t.sessions.contains_key(k),
        maintain::all_aged(t, order, now).0.sessions.contains_key(k),
    ensures
        ({
            let u = maintain::all_aged(t, order, now).0;
            u.sessions[k] == (SessionData { state: u.sessions[k].state, ..t.sessions[k] })
        }),
{
    table_laws::ageing_does_not_depend_on_the_order(t, order, now);
}

/// A logic server that is there is told of every session that ended.
proof fn closes_are_told(d: EngineData, order: Seq<u32>, now: Nanos, k: u32)
    requires
        d.online,
        table::table_wf(d.table),
        maintain::is_walk(d.table, order),
        lifecycle::has_ended(d.table, k, now),
    ensures
        engine::aged_by(d, order, now).up.contains(
            engine::event_frame(
                Event::Close { sess_id: d.table.sessions[k].sess_id, reason: 1 },
            ),
        ),
{
    let (t, events) = maintain::all_aged(d.table, order, now);
    let w = EngineData { table: t, ..d };
    table_laws::ageing_does_not_depend_on_the_order(d.table, order, now);
    assert forall|j: int| 0 <= j < events.len() implies !engine::is_droppable(
        #[trigger] events[j],
    ) by {
        assert(table_laws::is_a_close(d.table, now, events[j]));
    }
    laws::reliable_events_are_kept(w, events, now);
    lifecycle::ended_sessions_are_reported(d.table, order, now, k);
    let c = Event::Close { sess_id: d.table.sessions[k].sess_id, reason: 1 };
    let j = events.index_of(c);
    assert(engine::aged_by(d, order, now).up[d.up.len() + j] == engine::event_frame(c));
}

/// Nothing goes out in a tick but packets that have waited for a timeout or longer and heartbeats
/// of sessions that are still active and have been quiet for a second.
pub proof fn ticks_send_nothing_else(
    d: EngineData,
    now: Nanos,
    e: EngineData,
    out: Seq<(Seq<u8>, PeerAddr)>,
    j: int,
)
    requires
        table::table_wf(d.table),
        engine::is_tick(d, now, e, out),
        0 <= j < out.len(),
    ensures
        ({
            ||| lifecycle::is_resend(d.table, now, out[j])
            ||| is_beat(e.table, now, out[j])
        }),
{
    let (a, b, x, y) = tick_steps(d, now, e, out);
    let first = choose|order: Seq<u32>| #[trigger]
        maintain::is_walk(d.table, order) && a == engine::aged_by(d, order, now);
    assert(maintain::is_walk(d.table, first) && a == engine::aged_by(d, first, now));
    let (t, events) = maintain::all_aged(d.table, first, now);
    crate::engine::duties::events_touch_the_queue_only(EngineData { table: t, ..d }, events, now);
    assert(a.table == t);
    let second = choose|order: Seq<u32>| #[trigger]
        maintain::is_walk(a.table, order) && {
            let (u, more) = maintain::all_refreshed(a.table, order, now);
            b == (EngineData { table: u, ..a }) && x == more
        };
    assert(maintain::is_walk(a.table, second));
    lifecycle::ageing_keeps_the_table_sound(d.table, first, now);
    lifecycle::ageing_changes_only_sessions(d.table, first, now);
    quiet_sessions_hear_a_heartbeat(b, now, e, y);
    assert(e.table == b.table);
    if j < x.len() {
        lifecycle::only_lost_packets_are_sent_again(t, second, now);
        assert(lifecycle::is_resend(t, now, x[j]));
        let k = choose|k: u32| #[trigger]
            t.sessions.contains_key(k) && lifecycle::is_resend_of(t.sessions[k], now, x[j]);
        assert(d.table.sessions.contains_key(k));
        aged_sessions_keep_their_packets(d.table, first, now, k);
        assert(t.sessions[k].retrans_ordered == d.table.sessions[k].retrans_ordered);
        assert(lifecycle::is_resend_of(d.table.sessions[k], now, x[j]));
    } else {
        assert(out[j] == y[j - x.len()]);
        assert(is_beat(b.table, now, y[j - x.len()]));
    }
}

/// Whoever is still active after a tick and has been quiet for a second hears a heartbeat, if the
/// last ones went out a second ago or longer.
pub proof fn ticks_keep_quiet_clients_company(
    d: EngineData,
    now: Nanos,
    e: EngineData,
    out: Seq<(Seq<u8>, PeerAddr)>,
    k: u32,
)
    requires
        engine::is_tick(d, now, e, out),
        e.table.sessions.contains_key(k),
        has_been_quiet(e.table.sessions[k], now),
    ensures
        d.last_heartbeat + 1_000_000_000 <= now ==> e.last_heartbeat == now && out.contains(
            (engine::heartbeat_bytes(e.table.sessions[k]), e.table.sessions[k].peer),
        ),
        now < d.last_heartbeat + 1_000_000_000 ==> e.last_heartbeat == d.last_heartbeat,
{
    let (a, b, x, y) = tick_steps(d, now, e, out);
    let first = choose|order: Seq<u32>| #[trigger]
        maintain::is_walk(d.table, order) && a == engine::aged_by(d, order, now);
    let (t, events) = maintain::all_aged(d.table, first, now);
    crate::engine::duties::events_touch_the_queue_only(EngineData { table: t, ..d }, events, now);
    assert(b.last_heartbeat == d.last_heartbeat);
    quiet_sessions_hear_a_heartbeat(b, now, e, y);
    if d.last_heartbeat + 1_000_000_000 <= now {
        let beat = (engine::heartbeat_bytes(e.table.sessions[k]), e.table.sessions[k].peer);
        assert(b.table.sessions.contains_key(k));
        let j = y.index_of(beat);
        assert(out[x.len() + j] == beat);
    }
}

/// What a tick leaves alone: what waits for the logic server stays and is followed by the closes of
/// sessions that ended, each once, and by nothing else; challenges, ids, the link, its pauses and
/// the configuration are as they were.
pub proof fn ticks_tell_of_ends_only(
    d: EngineData,
    now: Nanos,
    e: EngineData,
    out: Seq<(Seq<u8>, PeerAddr)>,
)
    requires
        table::table_wf(d.table),
        engine::is_tick(d, now, e, out),
        forall|k: u32| #[trigger]
            d.table.sessions.contains_key(k) ==> maintain::grace_limit(
                d.table.cfg,
                d.table.sessions[k],
            ) > 0,
    ensures
        e == (EngineData {
            table: e.table,
            up: e.up,
            stats: e.stats,
            last_heartbeat: e.last_heartbeat,
            overload_due: e.overload_due,
            last_overload: e.last_overload,
            ..d
        }),
        e.table.pending == d.table.pending,
        e.table.cfg == d.table.cfg,
        e.table.next_conn_id == d.table.next_conn_id,
        e.table.next_sess_id == d.table.next_sess_id,
        e.table.sessions.dom().subset_of(d.table.sessions.dom()),
        !d.online ==> e.up == d.up,
        d.online ==> e.stats == d.stats && exists|events: Seq<Event>| #[trigger]
            are_the_ends(d.table, now, events) && e.up == d.up + laws::frames_of(events),
{
    let (a, b, x, y) = tick_steps(d, now, e, out);
    let first = choose|order: Seq<u32>| #[trigger]
        maintain::is_walk(d.table, order) && a == engine::aged_by(d, order, now);
    assert(maintain::is_walk(d.table, first) && a == engine::aged_by(d, first, now));
    let (t, events) = maintain::all_aged(d.table, first, now);
    let w = EngineData { table: t, ..d };
    crate::engine::duties::events_touch_the_queue_only(w, events, now);
    let second = choose|order: Seq<u32>| #[trigger]
        maintain::is_walk(a.table, order) && {
            let (u, more) = maintain::all_refreshed(a.table, order, now);
            b == (EngineData { table: u, ..a }) && x == more
        };
    assert(maintain::is_walk(a.table, second));
    lifecycle::ageing_keeps_the_table_sound(d.table, first, now);
    lifecycle::ageing_changes_only_sessions(d.table, first, now);
    lifecycle::packets_wait_until_acknowledged(t, second, now, 0);
    assert forall|k: u32| #[trigger] b.table.sessions.contains_key(k) implies
        d.table.sessions.contains_key(k) by {
        lifecycle::packets_wait_until_acknowledged(t, second, now, k);
        assert(t.sessions.dom().contains(k));
    }
    quiet_sessions_hear_a_heartbeat(b, now, e, y);
    if d.online {
        table_laws::ageing_does_not_depend_on_the_order(d.table, first, now);
        assert forall|j: int| 0 <= j < events.len() implies !engine::is_droppable(
            #[trigger] events[j],
        ) by {
            assert(table_laws::is_a_close(d.table, now, events[j]));
        }
        laws::reliable_events_are_kept(w, events, now);
        lifecycle::ends_are_reported_once(d.table, first, now);
        assert(are_the_ends(d.table, now, events));
    } else {
        crate::engine::duties::nothing_waits_for_nobody(w, events, now);
    }
}

/// Whether a list holds the close of each session whose grace period is over, once, and nothing
/// else.
pub open spec fn are_the_ends(t: TableData, now: Nanos, events: Seq<Event>) -> bool {
    &&& events.no_duplicates()
    &&& forall|k: u32| #[trigger]
        lifecycle::has_ended(t, k, now) ==> events.contains(lifecycle::end_of(t.sessions[k]))
    &&& forall|j: int|
        0 <= j < events.len() ==> lifecycle::is_due_end(t, now, #[trigger] events[j])
}

} // verus!
