//! What the engine promises, over several calls or for every input.

use vstd::prelude::*;

use crate::engine::{self, EngineData, LOGIC_RECONNECT_INTERVAL};
use crate::protocol::frame::LinkFrame;
use crate::protocol::types::{Nanos, UP_QUEUE_CAP};
use crate::session::event::{Event, CLOSE_KICKED, CLOSE_SHUTDOWN};
use crate::session::peer::SessionData;
use crate::session::table::maintain;
use crate::session::table::plan;
use crate::session::table::send;
use crate::session::table::{self, TableData};
use crate::stats;

verus! {

/// The frames of events.
pub open spec fn frames_of(events: Seq<Event>) -> Seq<LinkFrame> {
    events.map_values(|e: Event| engine::event_frame(e))
}

/// While the logic server is connected, nothing reliable is lost, however long the queue is: every
/// event that may not be dropped is queued behind what was queued before, in order.
pub proof fn reliable_events_are_kept(d: EngineData, events: Seq<Event>, now: Nanos)
    requires
        d.online,
        forall|i: int| 0 <= i < events.len() ==> !engine::is_droppable(#[trigger] events[i]),
    ensures
        engine::events_pushed(d, events, now).up == d.up + frames_of(events),
        engine::events_pushed(d, events, now).stats == d.stats,
        engine::events_pushed(d, events, now).table == d.table,
        engine::events_pushed(d, events, now).online,
    decreases events.len(),
{
    if events.len() > 0 {
        let init = events.drop_last();
        assert forall|i: int| 0 <= i < init.len() implies !engine::is_droppable(
            #[trigger] init[i],
        ) by {
            assert(init[i] == events[i]);
        }
        reliable_events_are_kept(d, init, now);
        assert(!engine::is_droppable(events[events.len() - 1]));
        assert(frames_of(events) =~= frames_of(init).push(engine::event_frame(events.last())));
        assert(d.up + frames_of(events) =~= (d.up + frames_of(init)).push(
            engine::event_frame(events.last()),
        ));
    } else {
        assert(d.up + frames_of(events) =~= d.up);
    }
}

/// What is queued for the logic server stays queued, whatever else happens on the receiving side.
pub proof fn queued_frames_stay(d: EngineData, events: Seq<Event>, now: Nanos)
    ensures
        d.up.is_prefix_of(engine::events_pushed(d, events, now).up),
    decreases events.len(),
{
    if events.len() > 0 {
        queued_frames_stay(d, events.drop_last(), now);
        let e = engine::events_pushed(d, events.drop_last(), now);
        let f = engine::event_frame(events.last());
        assert(e.up.is_prefix_of(e.up.push(f)));
    }
}

/// What may be dropped never makes the queue longer than its limit.
pub proof fn droppable_frames_respect_the_limit(d: EngineData, f: LinkFrame, now: Nanos)
    ensures
        engine::pushed(d, f, true, now).up.len() <= if d.up.len() < UP_QUEUE_CAP {
            UP_QUEUE_CAP as int
        } else {
            d.up.len() as int
        },
{
}

/// A frame towards the logic server is either queued or counted as lost.
pub proof fn frames_are_queued_or_counted(
    d: EngineData,
    f: LinkFrame,
    droppable: bool,
    now: Nanos,
)
    ensures
        ({
            let e = engine::pushed(d, f, droppable, now);
            ||| e.up == d.up.push(f) && e.stats == d.stats
            ||| e.up == d.up && e.stats.dropped_up == stats::count_sum(d.stats.dropped_up, 1)
        }),
{
}

/// The logic server is not told of an overload more often than the interval allows.
pub proof fn overload_notices_are_throttled(d: EngineData, now: Nanos, later: Nanos)
    requires
        now <= later < now + engine::OVERLOAD_MIN_INTERVAL,
        engine::overload_noted(d, now).last_overload == now,
    ensures
        engine::overload_noted(engine::overload_noted(d, now), later) == engine::overload_noted(
            d,
            now,
        ),
{
}

/// Kicking a session that is there ends it and tells the logic server so, once.
pub proof fn kicks_are_reported(d: EngineData, sess_id: u64, now: Nanos, k: u32)
    requires
        d.online,
        send::conn_of(d.table, sess_id) == Some(k),
    ensures
        engine::kicked(d, sess_id, now).up == d.up.push(
            engine::event_frame(Event::Close { sess_id, reason: CLOSE_KICKED }),
        ),
        engine::kicked(d, sess_id, now).table.sessions == d.table.sessions.remove(k),
{
}

/// A message that the budget does not admit leaves no trace but in the count of what was dropped:
/// no datagram, no sequence number, nothing that waits for an acknowledgement. All that changes of
/// the session is that its window forgets what is a second old.
pub proof fn messages_over_budget_leave_no_trace(
    d: EngineData,
    sess_id: u64,
    ch: u8,
    msg_id: u16,
    payload: Seq<u8>,
    now: Nanos,
)
    requires
        !engine::charged(d.table, sess_id, ch, msg_id, payload, now).1,
    ensures
        ({
            let (e, out) = engine::sent_out(d, sess_id, ch, msg_id, payload, now);
            let k = send::conn_of(d.table, sess_id)->0;
            let s = d.table.sessions[k];
            let bytes = plan::capped(plan::planned(d.table, sess_id, ch, msg_id, payload)->0);
            &&& send::conn_of(d.table, sess_id) is Some
            &&& out.len() == 0
            &&& e.up == d.up
            &&& e.table == send::with_session(
                d.table,
                k,
                SessionData { bytes_window: send::recent(s.bytes_window, now), ..s },
            )
            &&& e.stats.dropped_down == stats::count_sum(d.stats.dropped_down, bytes)
        }),
{
}

/// What is sent was admitted by the budget, byte for byte, and is what it would be without one.
pub proof fn what_is_sent_was_admitted(
    d: EngineData,
    sess_id: u64,
    ch: u8,
    msg_id: u16,
    payload: Seq<u8>,
    now: Nanos,
)
    requires
        table::table_wf(d.table),
        engine::sent_out(d, sess_id, ch, msg_id, payload, now).1.len() > 0,
    ensures
        ({
            let out = engine::sent_out(d, sess_id, ch, msg_id, payload, now).1;
            &&& send::budget_checked(d.table, sess_id, plan::capped(send::total_len(out)), now).1
            &&& send::packed_out(d.table, sess_id, ch, msg_id, payload, now).1 matches Ok(
                datagrams,
            ) && datagrams == out
        }),
{
    let t = d.table;
    let k = send::conn_of(t, sess_id)->0;
    let s = t.sessions[k];
    let (u, ok) = engine::charged(t, sess_id, ch, msg_id, payload, now);
    match plan::planned(t, sess_id, ch, msg_id, payload) {
        None => {
            plan::plans_come_true(t, sess_id, ch, msg_id, payload, now);
        },
        Some(n) => {
            assert(send::is_conn_of(t, sess_id, k));
            let after = send::budgeted(s, plan::capped(n), now).0;
            send::recent_sum(s.bytes_window, now);
            let w = send::recent(s.bytes_window, now);
            assert(w.push((now, plan::capped(n))).drop_last() =~= w);
            send::update_keeps_wf(t, k, after);
            assert(send::is_conn_of(u, sess_id, k));
            send::conn_is_unique(u, sess_id, k);
            send::same_acks(s, after);
            assert(send::fragment_datagrams(t.cfg, s, msg_id, payload)
                =~= send::fragment_datagrams(t.cfg, after, msg_id, payload));
            plan::plans_come_true(t, sess_id, ch, msg_id, payload, now);
        },
    }
}

/// The events of a shutdown are reliable, and one for each session that is closed.
proof fn shutdown_events(t: TableData, order: Seq<u32>)
    requires
        order.no_duplicates(),
        forall|k: u32| #[trigger] order.contains(k) ==> t.sessions.contains_key(k),
    ensures
        ({
            let (u, events) = maintain::all_closed(t, order);
            &&& events.len() == order.len()
            &&& forall|i: int|
                0 <= i < order.len() ==> #[trigger] events[i] == (Event::Close {
                    sess_id: t.sessions[order[i]].sess_id,
                    reason: CLOSE_SHUTDOWN,
                })
            &&& forall|k: u32| #[trigger]
                u.sessions.contains_key(k) == (t.sessions.contains_key(k) && !order.contains(k))
            &&& forall|k: u32| #[trigger]
                u.sessions.contains_key(k) ==> u.sessions[k] == t.sessions[k]
        }),
    decreases order.len(),
{
    if order.len() > 0 {
        let init = order.drop_last();
        let last = order.last();
        assert forall|k: u32| #[trigger] order.contains(k) == (init.contains(k) || k == last) by {
            if init.contains(k) {
                let x = choose|x: int| 0 <= x < init.len() && init[x] == k;
                assert(order[x] == k);
            }
            if k == last {
                assert(order[order.len() - 1] == k);
            }
            if order.contains(k) && k != last {
                let x = choose|x: int| 0 <= x < order.len() && order[x] == k;
                assert(init[x] == k);
            }
        }
        assert forall|k: u32| #[trigger] init.contains(k) implies t.sessions.contains_key(k) by {
            assert(order.contains(k));
        }
        shutdown_events(t, init);
        let (u, events) = maintain::all_closed(t, init);
        let v = send::closed(u, last);
        assert(!init.contains(last)) by {
            if init.contains(last) {
                let x = choose|x: int| 0 <= x < init.len() && init[x] == last;
                assert(order[x] == order[order.len() - 1]);
            }
        }
        assert(order.contains(last));
        assert(u.sessions.contains_key(last));
        let all = maintain::all_closed(t, order).1;
        assert forall|i: int| 0 <= i < order.len() implies #[trigger] all[i] == (Event::Close {
            sess_id: t.sessions[order[i]].sess_id,
            reason: CLOSE_SHUTDOWN,
        }) by {
            if i < init.len() {
                assert(all[i] == events[i]);
                assert(init[i] == order[i]);
            }
        }
        assert forall|k: u32| #[trigger] v.sessions.contains_key(k) implies v.sessions[k]
            == t.sessions[k] by {
            assert(u.sessions.contains_key(k));
        }
    }
}

/// A shutdown closes every session and tells the logic server of each of them, once.
pub proof fn shutdown_reports_every_session(d: EngineData, order: Seq<u32>, now: Nanos)
    requires
        d.online,
        maintain::is_walk(d.table, order),
    ensures
        ({
            let (t, events) = maintain::all_closed(d.table, order);
            let e = engine::events_pushed(EngineData { table: t, ..d }, events, now);
            &&& e.table.sessions == Map::<u32, SessionData>::empty()
            &&& e.up == d.up + order.map_values(
                |k: u32|
                    engine::event_frame(
                        Event::Close {
                            sess_id: d.table.sessions[k].sess_id,
                            reason: CLOSE_SHUTDOWN,
                        },
                    ),
            )
        }),
{
    let (t, events) = maintain::all_closed(d.table, order);
    shutdown_events(d.table, order);
    assert forall|i: int| 0 <= i < events.len() implies !engine::is_droppable(
        #[trigger] events[i],
    ) by {}
    reliable_events_are_kept(EngineData { table: t, ..d }, events, now);
    assert(t.sessions =~= Map::<u32, SessionData>::empty());
    assert(frames_of(events) =~= order.map_values(
        |k: u32|
            engine::event_frame(
                Event::Close { sess_id: d.table.sessions[k].sess_id, reason: CLOSE_SHUTDOWN },
            ),
    ));
}

/// The pause before try `n` after a connection: one second, then twice as long each time, up to
/// eight seconds.
pub open spec fn pause_before(n: nat) -> Nanos
    decreases n,
{
    if n == 0 {
        LOGIC_RECONNECT_INTERVAL
    } else {
        engine::next_backoff(pause_before((n - 1) as nat))
    }
}

/// The pauses are one, two, four and from then on eight seconds.
pub proof fn pauses_double_up_to_a_limit(n: nat)
    ensures
        pause_before(0) == 1_000_000_000,
        pause_before(1) == 2_000_000_000,
        pause_before(2) == 4_000_000_000,
        n >= 3 ==> pause_before(n) == 8_000_000_000,
    decreases n,
{
    reveal_with_fuel(pause_before, 4);
    if n > 3 {
        pauses_double_up_to_a_limit((n - 1) as nat);
    }
}

/// A logic server may go and come back without any client noticing: the sessions stay as they
/// are, and pauses start over.
pub proof fn restarts_keep_the_sessions(d: EngineData, now: Nanos)
    ensures
        ({
            let gone = EngineData { last_online: now, ..engine::disconnected(d) };
            let back = engine::connected(gone);
            &&& back.table == d.table
            &&& back.online
            &&& back.up == Seq::<LinkFrame>::empty()
            &&& back.backoff == LOGIC_RECONNECT_INTERVAL
            &&& back.last_online == now
        }),
{
}

} // verus!
