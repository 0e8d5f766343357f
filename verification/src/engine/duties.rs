//! What the engine owes its clients and the logic server.

use vstd::prelude::*;

use crate::addr::{self, PeerAddr};
use crate::engine::laws;
use crate::engine::{self, EngineData};
use crate::error::{Error, ProtocolError};
use crate::protocol::datagram::{self, FrameView};
use crate::protocol::frame::{self, LinkFrame};
use crate::protocol::types::Nanos;
use crate::session::event::Event;
use crate::session::peer::{self, SessionData};
use crate::session::table::outgoing;
use crate::session::table::plan;
use crate::session::table::receive;
use crate::session::table::send;
use crate::session::table::{self, TableData};
use crate::stats::StatsSnapshot;

verus! {

// Towards the logic server.

/// What happens to a frame towards the logic server. Nobody is there: it is lost and counted. The
/// queue holds fewer than 4096: it waits behind all others. The queue is full: what may be dropped
/// is lost and counted, everything else waits all the same, and the logic server is to be told,
/// unless that was decided less than 100 ms ago. Nothing else changes.
pub proof fn frames_wait_or_are_lost(d: EngineData, f: LinkFrame, droppable: bool, now: Nanos)
    ensures
        ({
            let e = engine::pushed(d, f, droppable, now);
            let kept = d.up.push(f);
            let count = ((d.stats.dropped_up + 1) % 0x1_0000_0000_0000_0000) as u64;
            let lost = StatsSnapshot { dropped_up: count, ..d.stats };
            let told = d.last_overload + 100_000_000 <= now;
            if !d.online {
                e == (EngineData { stats: lost, ..d })
            } else if d.up.len() < 4096 {
                e == (EngineData { up: kept, ..d })
            } else {
                &&& e.up == if droppable {
                    d.up
                } else {
                    kept
                }
                &&& e.stats == if droppable {
                    lost
                } else {
                    d.stats
                }
                &&& told ==> e.overload_due && e.last_overload == now
                &&& !told ==> e.overload_due == d.overload_due && e.last_overload
                    == d.last_overload
                &&& e == (EngineData {
                    up: e.up,
                    stats: e.stats,
                    overload_due: e.overload_due,
                    last_overload: e.last_overload,
                    ..d
                })
            }
        }),
{
}

/// Only data of channels 0 and 1 may be dropped; what is reliable, and what tells of a session that
/// opens, closes or comes back, may not.
pub proof fn only_unreliable_data_may_be_dropped(e: Event)
    ensures
        engine::is_droppable(e) <==> (e matches Event::Data { ch, .. } && ch <= 1),
{
}

/// The frame that tells of an event says what the event says, to whoever reads it.
pub proof fn events_are_told_as_they_are(e: Event)
    ensures
        ({
            let f = engine::event_frame(e);
            match e {
                Event::Open { sess_id, peer, token } => {
                    &&& f.ty == 0x01
                    &&& token.len() < 0x1_0000 && addr::has_link_form(peer)
                        ==> frame::session_open_of(f.body) == Ok::<
                        (u64, PeerAddr, Seq<u8>),
                        ProtocolError,
                    >((sess_id, peer, token))
                },
                Event::Close { sess_id, reason } => {
                    &&& f.ty == 0x02
                    &&& frame::session_close_of(f.body) == Ok::<(u64, u8), ProtocolError>(
                        (sess_id, reason),
                    )
                },
                Event::Resume { sess_id, gap_ms } => {
                    &&& f.ty == 0x03
                    &&& frame::session_resume_of(f.body) == Ok::<(u64, u32), ProtocolError>(
                        (sess_id, gap_ms),
                    )
                },
                Event::Data { sess_id, ch, msg_id, payload } => {
                    &&& f.ty == 0x10
                    &&& frame::data_of(f.body) == Ok::<(u64, u8, u16, Seq<u8>), ProtocolError>(
                        (sess_id, ch, msg_id, payload),
                    )
                },
            }
        }),
{
    match e {
        Event::Open { sess_id, peer, token } => {
            if token.len() < 0x1_0000 && addr::has_link_form(peer) {
                frame::session_open_round_trip(sess_id, peer, token);
            }
        },
        Event::Close { sess_id, reason } => {
            frame::session_close_round_trip(sess_id, reason);
        },
        Event::Resume { sess_id, gap_ms } => {
            frame::session_resume_round_trip(sess_id, gap_ms);
        },
        Event::Data { sess_id, ch, msg_id, payload } => {
            frame::data_round_trip(sess_id, ch, msg_id, payload);
        },
    }
}

/// Events towards a logic server with room in its queue all wait there, in order.
pub proof fn events_wait_in_order(d: EngineData, events: Seq<Event>, now: Nanos)
    requires
        d.online,
        d.up.len() + events.len() <= 4096,
    ensures
        engine::events_pushed(d, events, now) == (EngineData {
            up: d.up + laws::frames_of(events),
            ..d
        }),
    decreases events.len(),
{
    if events.len() == 0 {
        assert(d.up + laws::frames_of(events) =~= d.up);
    } else {
        events_wait_in_order(d, events.drop_last(), now);
        assert(d.up + laws::frames_of(events) =~= (d.up + laws::frames_of(
            events.drop_last(),
        )).push(engine::event_frame(events.last())));
    }
}

/// Frames towards a logic server with room in its queue all wait there, in order.
pub proof fn frames_wait_in_order(
    d: EngineData,
    frames: Seq<LinkFrame>,
    droppable: bool,
    now: Nanos,
)
    requires
        d.online,
        d.up.len() + frames.len() <= 4096,
    ensures
        engine::frames_pushed(d, frames, droppable, now) == (EngineData { up: d.up + frames, ..d }),
    decreases frames.len(),
{
    if frames.len() == 0 {
        assert(d.up + frames =~= d.up);
    } else {
        frames_wait_in_order(d, frames.drop_last(), droppable, now);
        assert(d.up + frames =~= (d.up + frames.drop_last()).push(frames.last()));
    }
}

/// What events do to the rest of the engine: they touch what waits for the logic server, what is
/// counted as lost, and whether the logic server is to be told; nothing else.
pub proof fn events_touch_the_queue_only(d: EngineData, events: Seq<Event>, now: Nanos)
    ensures
        ({
            let e = engine::events_pushed(d, events, now);
            &&& e == (EngineData {
                up: e.up,
                stats: e.stats,
                overload_due: e.overload_due,
                last_overload: e.last_overload,
                ..d
            })
            &&& e.stats == (StatsSnapshot { dropped_up: e.stats.dropped_up, ..d.stats })
            &&& e.up.len() <= d.up.len() + events.len()
        }),
    decreases events.len(),
{
    if events.len() > 0 {
        events_touch_the_queue_only(d, events.drop_last(), now);
    }
}

/// Every datagram of a client goes to the session table, whether or not the logic server is there:
/// the sessions change as the table says, the client gets the table's answer, and a logic server
/// that is there and keeps up hears of every event in order.
pub proof fn datagrams_are_handed_on(
    d: EngineData,
    peer: PeerAddr,
    buf: Seq<u8>,
    random: Seq<u8>,
    now: Nanos,
)
    ensures
        ({
            let o = receive::received(d.table, peer, buf, random, now);
            let (e, reply) = engine::datagram_in(d, peer, buf, random, now);
            &&& e.table == o.table
            &&& reply == o.reply
            &&& d.online && d.up.len() + o.events.len() <= 4096 ==> e == (EngineData {
                table: o.table,
                up: d.up + laws::frames_of(o.events),
                ..d
            })
            &&& !d.online ==> e.up == d.up
        }),
{
    let o = receive::received(d.table, peer, buf, random, now);
    let w = EngineData { table: o.table, ..d };
    events_touch_the_queue_only(w, o.events, now);
    if d.online && d.up.len() + o.events.len() <= 4096 {
        events_wait_in_order(w, o.events, now);
    }
    if !d.online {
        nothing_waits_for_nobody(w, o.events, now);
    }
}

/// Without a logic server nothing is queued.
pub proof fn nothing_waits_for_nobody(d: EngineData, events: Seq<Event>, now: Nanos)
    requires
        !d.online,
    ensures
        engine::events_pushed(d, events, now).up == d.up,
        !engine::events_pushed(d, events, now).online,
    decreases events.len(),
{
    if events.len() > 0 {
        nothing_waits_for_nobody(d, events.drop_last(), now);
    }
}

// From the logic server.

/// A `Send` frame.
pub open spec fn send_frame(sess_id: u64, ch: u8, msg_id: u16, payload: Seq<u8>) -> LinkFrame {
    LinkFrame { ty: 0x81, body: frame::data_body(sess_id, ch, msg_id, payload) }
}

/// A `Multicast` frame.
pub open spec fn multicast_frame(
    ids: Seq<u64>,
    ch: u8,
    msg_id: u16,
    payload: Seq<u8>,
) -> LinkFrame {
    LinkFrame { ty: 0x82, body: frame::multicast_body(ids, ch, msg_id, payload) }
}

/// What a `Send` does when the message can go out: the session gets exactly the datagrams that the
/// message makes on the channel it names, if the budget admits their bytes; else nothing goes out
/// and the bytes are counted as dropped.
pub proof fn sends_are_carried_out(
    d: EngineData,
    sess_id: u64,
    ch: u8,
    msg_id: u16,
    payload: Seq<u8>,
    now: Nanos,
)
    requires
        table::table_wf(d.table),
        send::packed_out(d.table, sess_id, ch, msg_id, payload, now).1 is Ok,
    ensures
        ({
            let datagrams = send::packed_out(d.table, sess_id, ch, msg_id, payload, now).1->Ok_0;
            let bytes = plan::capped(send::total_len(datagrams));
            let (u, ok) = send::budget_checked(d.table, sess_id, bytes, now);
            let (e, r) = engine::logic_frame_in(
                d,
                send_frame(sess_id, ch, msg_id, payload),
                now,
            );
            &&& r == Ok::<Seq<(Seq<u8>, PeerAddr)>, Error>(
                if ok {
                    datagrams
                } else {
                    Seq::empty()
                },
            )
            &&& ok ==> e == (EngineData {
                table: send::packed_out(u, sess_id, ch, msg_id, payload, now).0,
                ..d
            })
            &&& !ok ==> e == (EngineData {
                table: u,
                stats: StatsSnapshot {
                    dropped_down: ((d.stats.dropped_down + bytes)
                        % 0x1_0000_0000_0000_0000) as u64,
                    ..d.stats
                },
                ..d
            })
        }),
{
    frame::data_round_trip(sess_id, ch, msg_id, payload);
    plan::plans_come_true(d.table, sess_id, ch, msg_id, payload, now);
    let datagrams = send::packed_out(d.table, sess_id, ch, msg_id, payload, now).1->Ok_0;
    let bytes = plan::capped(send::total_len(datagrams));
    let (u, ok) = send::budget_checked(d.table, sess_id, bytes, now);
    if ok {
        charging_changes_no_datagram(d.table, sess_id, ch, msg_id, payload, bytes, now);
        let k = send::conn_of(d.table, sess_id)->0;
        assert(send::is_conn_of(d.table, sess_id, k));
    }
}

/// What is made of a message does not depend on what was charged to the budget.
proof fn charging_changes_no_datagram(
    t: TableData,
    sess_id: u64,
    ch: u8,
    msg_id: u16,
    payload: Seq<u8>,
    bytes: u64,
    now: Nanos,
)
    requires
        table::table_wf(t),
    ensures
        ({
            let u = send::budget_checked(t, sess_id, bytes, now).0;
            send::packed_out(u, sess_id, ch, msg_id, payload, now).1 == send::packed_out(
                t,
                sess_id,
                ch,
                msg_id,
                payload,
                now,
            ).1
        }),
{
    match send::conn_of(t, sess_id) {
        None => {},
        Some(k) => {
            let s = t.sessions[k];
            assert(send::is_conn_of(t, sess_id, k));
            let (after, ok) = send::budgeted(s, bytes, now);
            let u = send::budget_checked(t, sess_id, bytes, now).0;
            send::recent_sum(s.bytes_window, now);
            let w = send::recent(s.bytes_window, now);
            assert(w.push((now, bytes)).drop_last() =~= w);
            send::update_keeps_wf(t, k, after);
            assert(send::is_conn_of(u, sess_id, k));
            send::conn_is_unique(u, sess_id, k);
            send::same_acks(s, after);
            assert(send::fragment_datagrams(t.cfg, s, msg_id, payload)
                =~= send::fragment_datagrams(t.cfg, after, msg_id, payload));
        },
    }
}

/// What a `Send` does when the message cannot go out: nothing is sent, and one more is counted as
/// dropped. If it is because too many packets wait and the budget is not in the way, the session is
/// over and the logic server is told so.
pub proof fn sends_that_fail_are_counted(
    d: EngineData,
    sess_id: u64,
    ch: u8,
    msg_id: u16,
    payload: Seq<u8>,
    now: Nanos,
)
    requires
        table::table_wf(d.table),
        send::packed_out(d.table, sess_id, ch, msg_id, payload, now).1 is Err,
    ensures
        ({
            let (t, fault) = send::packed_out(d.table, sess_id, ch, msg_id, payload, now);
            let over = fault->Err_0 == Error::Protocol(ProtocolError::RetransmitOverflow);
            let k = send::conn_of(d.table, sess_id)->0;
            let (e, r) = engine::logic_frame_in(
                d,
                send_frame(sess_id, ch, msg_id, payload),
                now,
            );
            let lost = EngineData {
                table: t,
                stats: StatsSnapshot {
                    dropped_down: ((d.stats.dropped_down + 1) % 0x1_0000_0000_0000_0000) as u64,
                    ..d.stats
                },
                ..d
            };
            &&& r == Ok::<Seq<(Seq<u8>, PeerAddr)>, Error>(Seq::empty())
            &&& !over ==> e == lost
            &&& over && d.table.sessions[k].budget_kbps is None ==> e == engine::pushed(
                lost,
                engine::event_frame(Event::Close { sess_id, reason: 3 }),
                false,
                now,
            )
        }),
{
    frame::data_round_trip(sess_id, ch, msg_id, payload);
    plan::plans_come_true(d.table, sess_id, ch, msg_id, payload, now);
    let (t, fault) = send::packed_out(d.table, sess_id, ch, msg_id, payload, now);
    if fault->Err_0 == Error::Protocol(ProtocolError::RetransmitOverflow) {
        let k = send::conn_of(d.table, sess_id)->0;
        assert(send::is_conn_of(d.table, sess_id, k));
        if d.table.sessions[k].budget_kbps is None {
            assert(send::with_session(d.table, k, d.table.sessions[k]) =~= d.table);
        }
    } else {
        unplanned_faults(d.table, sess_id, ch, msg_id, payload, now);
    }
}

/// What fails for another reason than a full queue was not planned.
proof fn unplanned_faults(
    t: TableData,
    sess_id: u64,
    ch: u8,
    msg_id: u16,
    payload: Seq<u8>,
    now: Nanos,
)
    requires
        send::packed_out(t, sess_id, ch, msg_id, payload, now).1 is Err,
        send::packed_out(t, sess_id, ch, msg_id, payload, now).1->Err_0 != Error::Protocol(
            ProtocolError::RetransmitOverflow,
        ),
    ensures
        plan::planned(t, sess_id, ch, msg_id, payload) is None,
{
    plan::plans_come_true(t, sess_id, ch, msg_id, payload, now);
}

/// What several `Send` frames lead to, one for each of `ids` in order: the engine afterwards, and
/// all the datagrams.
pub open spec fn each_sent(
    d: EngineData,
    ids: Seq<u64>,
    ch: u8,
    msg_id: u16,
    payload: Seq<u8>,
    now: Nanos,
) -> (EngineData, Seq<(Seq<u8>, PeerAddr)>)
    decreases ids.len(),
{
    if ids.len() == 0 {
        (d, Seq::empty())
    } else {
        let (e, out) = each_sent(d, ids.drop_last(), ch, msg_id, payload, now);
        let (f, r) = engine::logic_frame_in(
            e,
            send_frame(ids.last(), ch, msg_id, payload),
            now,
        );
        (f, out + r->Ok_0)
    }
}

/// A `Multicast` is as many `Send`s: it leads to the same engine and the same datagrams as one
/// `Send` to each of the sessions, in order, on the same channel and with the same message.
pub proof fn a_multicast_is_many_sends(
    d: EngineData,
    ids: Seq<u64>,
    ch: u8,
    msg_id: u16,
    payload: Seq<u8>,
    now: Nanos,
)
    requires
        ids.len() < 0x100,
    ensures
        engine::logic_frame_in(d, multicast_frame(ids, ch, msg_id, payload), now) == (
            each_sent(d, ids, ch, msg_id, payload, now).0,
            Ok::<Seq<(Seq<u8>, PeerAddr)>, Error>(
                each_sent(d, ids, ch, msg_id, payload, now).1,
            ),
        ),
{
    frame::multicast_round_trip(ids, ch, msg_id, payload);
    many_sends(d, ids, ch, msg_id, payload, now);
}

/// `a_multicast_is_many_sends`, once the frame was read.
proof fn many_sends(
    d: EngineData,
    ids: Seq<u64>,
    ch: u8,
    msg_id: u16,
    payload: Seq<u8>,
    now: Nanos,
)
    ensures
        engine::multicast_out(d, ids, ch, msg_id, payload, now) == each_sent(
            d,
            ids,
            ch,
            msg_id,
            payload,
            now,
        ),
    decreases ids.len(),
{
    if ids.len() > 0 {
        many_sends(d, ids.drop_last(), ch, msg_id, payload, now);
        frame::data_round_trip(ids.last(), ch, msg_id, payload);
    }
}

/// A `Kick` ends the session that it names, counts it, and tells the logic server with the reason
/// of a kick; one that names nobody does nothing.
pub proof fn kicks_are_carried_out(d: EngineData, sess_id: u64, reason: u8, now: Nanos)
    requires
        table::table_wf(d.table),
    ensures
        ({
            let f = LinkFrame { ty: 0x83, body: frame::session_close_body(sess_id, reason) };
            let (e, r) = engine::logic_frame_in(d, f, now);
            let gone = EngineData {
                table: send::kicked(d.table, sess_id),
                stats: StatsSnapshot {
                    kicks: ((d.stats.kicks + 1) % 0x1_0000_0000_0000_0000) as u64,
                    ..d.stats
                },
                ..d
            };
            &&& r == Ok::<Seq<(Seq<u8>, PeerAddr)>, Error>(Seq::empty())
            &&& send::conn_of(d.table, sess_id) is None ==> e == d
            &&& send::conn_of(d.table, sess_id) is Some ==> e == engine::pushed(
                gone,
                engine::event_frame(Event::Close { sess_id, reason: 2 }),
                false,
                now,
            )
        }),
{
    frame::session_close_round_trip(sess_id, reason);
}

/// A `SetBudget` sets the budget of the session that it names to what it says.
pub proof fn budgets_are_carried_out(d: EngineData, sess_id: u64, k: u32, kbps: u16, now: Nanos)
    requires
        table::table_wf(d.table),
        send::is_conn_of(d.table, sess_id, k),
    ensures
        ({
            let f = LinkFrame { ty: 0x84, body: frame::set_budget_body(sess_id, kbps) };
            let (e, r) = engine::logic_frame_in(d, f, now);
            let s = SessionData { budget_kbps: Some(kbps), ..d.table.sessions[k] };
            &&& r == Ok::<Seq<(Seq<u8>, PeerAddr)>, Error>(Seq::empty())
            &&& e == (EngineData {
                table: TableData { sessions: d.table.sessions.insert(k, s), ..d.table },
                ..d
            })
        }),
{
    frame::set_budget_round_trip(sess_id, kbps);
    send::conn_is_unique(d.table, sess_id, k);
}

/// A frame whose body is too short for its type is refused, and one that is not an order is
/// ignored; neither changes anything.
pub proof fn bad_orders_change_nothing(d: EngineData, f: LinkFrame, now: Nanos)
    ensures
        ({
            let (e, r) = engine::logic_frame_in(d, f, now);
            let short = Err::<Seq<(Seq<u8>, PeerAddr)>, Error>(
                Error::Protocol(ProtocolError::BodyTooShort),
            );
            &&& f.ty == 0x81 ==> (r == short <==> f.body.len() < 11)
            &&& f.ty == 0x82 ==> (r == short <==> f.body.len() == 0 || f.body.len() < 8 * f.body[0]
                + 4)
            &&& f.ty == 0x83 ==> (r == short <==> f.body.len() < 9)
            &&& f.ty == 0x84 ==> (r == short <==> f.body.len() < 10)
            &&& r is Err ==> r == short && e == d
            &&& f.ty < 0x81 || f.ty > 0x84 ==> e == d && r == Ok::<
                Seq<(Seq<u8>, PeerAddr)>,
                Error,
            >(Seq::empty())
        }),
{
}

/// Events go towards the logic server one by one: each as its frame, and none is left out, however
/// full the queue is. No events, no change.
pub proof fn every_event_goes_its_way(d: EngineData, events: Seq<Event>, e: Event, now: Nanos)
    ensures
        engine::events_pushed(d, events.push(e), now) == engine::pushed(
            engine::events_pushed(d, events, now),
            engine::event_frame(e),
            e matches Event::Data { ch, .. } && ch <= 1,
            now,
        ),
        engine::events_pushed(d, Seq::empty(), now) == d,
{
    assert(events.push(e).drop_last() =~= events);
}

/// Frames go towards the logic server one by one, and none is left out.
pub proof fn every_frame_goes_its_way(
    d: EngineData,
    frames: Seq<LinkFrame>,
    f: LinkFrame,
    droppable: bool,
    now: Nanos,
)
    ensures
        engine::frames_pushed(d, frames.push(f), droppable, now) == engine::pushed(
            engine::frames_pushed(d, frames, droppable, now),
            f,
            droppable,
            now,
        ),
        engine::frames_pushed(d, Seq::empty(), droppable, now) == d,
{
    assert(frames.push(f).drop_last() =~= frames);
}

/// A message for which too many packets wait, to a session with a budget: if the budget admits its
/// bytes, the session is over and the logic server is told so; if not, the message is dropped and
/// its bytes are counted.
pub proof fn full_queues_end_sessions_within_budget(
    d: EngineData,
    sess_id: u64,
    k: u32,
    ch: u8,
    msg_id: u16,
    payload: Seq<u8>,
    now: Nanos,
)
    requires
        table::table_wf(d.table),
        send::is_conn_of(d.table, sess_id, k),
        payload.len() < 0x1_0000_0000,
        send::packed_out(d.table, sess_id, ch, msg_id, payload, now).1 == Err::<
            Seq<(Seq<u8>, PeerAddr)>,
            Error,
        >(Error::Protocol(ProtocolError::RetransmitOverflow)),
    ensures
        ({
            let bytes = outgoing::bytes_of(d.table.cfg.enable_hmac, ch, payload) as u64;
            let (u, ok) = send::budget_checked(d.table, sess_id, bytes, now);
            let (e, r) = engine::logic_frame_in(
                d,
                send_frame(sess_id, ch, msg_id, payload),
                now,
            );
            let count = |n: int|
                StatsSnapshot {
                    dropped_down: ((d.stats.dropped_down + n) % 0x1_0000_0000_0000_0000) as u64,
                    ..d.stats
                };
            &&& r == Ok::<Seq<(Seq<u8>, PeerAddr)>, Error>(Seq::empty())
            &&& ok ==> e == engine::pushed(
                EngineData {
                    table: send::packed_out(u, sess_id, ch, msg_id, payload, now).0,
                    stats: count(1),
                    ..d
                },
                engine::event_frame(Event::Close { sess_id, reason: 3 }),
                false,
                now,
            )
            &&& ok ==> !e.table.sessions.contains_key(k)
            &&& !ok ==> e == (EngineData { table: u, stats: count(bytes as int), ..d })
            &&& !ok ==> e.table.sessions.contains_key(k)
        }),
{
    frame::data_round_trip(sess_id, ch, msg_id, payload);
    full_queues_are_planned(d.table, sess_id, k, ch, msg_id, payload, now);
    let bytes = outgoing::bytes_of(d.table.cfg.enable_hmac, ch, payload) as u64;
    charging_changes_no_datagram(d.table, sess_id, ch, msg_id, payload, bytes, now);
    charging_keeps_the_session(d.table, sess_id, k, bytes, now);
    let u = send::budget_checked(d.table, sess_id, bytes, now).0;
    full_queues_remove(u, sess_id, k, ch, msg_id, payload, now);
}

/// What a message takes for which too many packets wait.
proof fn full_queues_are_planned(
    t: TableData,
    sess_id: u64,
    k: u32,
    ch: u8,
    msg_id: u16,
    payload: Seq<u8>,
    now: Nanos,
)
    requires
        table::table_wf(t),
        send::is_conn_of(t, sess_id, k),
        payload.len() < 0x1_0000_0000,
        send::packed_out(t, sess_id, ch, msg_id, payload, now).1 == Err::<
            Seq<(Seq<u8>, PeerAddr)>,
            Error,
        >(Error::Protocol(ProtocolError::RetransmitOverflow)),
    ensures
        ({
            let bytes = outgoing::bytes_of(t.cfg.enable_hmac, ch, payload);
            &&& plan::planned(t, sess_id, ch, msg_id, payload) is Some
            &&& plan::capped(plan::planned(t, sess_id, ch, msg_id, payload)->0) == bytes as u64
            &&& bytes as u64 == bytes
        }),
{
    send::conn_is_unique(t, sess_id, k);
    outgoing::bytes_are_few(t.cfg.enable_hmac, ch, payload);
    overflows_are_planned(t, sess_id, k, ch, msg_id, payload, now);
    outgoing::plans_go_by_the_size(t, sess_id, k, ch, msg_id, payload);
}

/// A message that only fails for the packets that wait has a plan.
proof fn overflows_are_planned(
    t: TableData,
    sess_id: u64,
    k: u32,
    ch: u8,
    msg_id: u16,
    payload: Seq<u8>,
    now: Nanos,
)
    requires
        send::conn_of(t, sess_id) == Some(k),
        send::packed_out(t, sess_id, ch, msg_id, payload, now).1 == Err::<
            Seq<(Seq<u8>, PeerAddr)>,
            Error,
        >(Error::Protocol(ProtocolError::RetransmitOverflow)),
    ensures
        plan::planned(t, sess_id, ch, msg_id, payload) is Some,
{
    let s = t.sessions[k];
    let f = FrameView { ch, msg_id, body: payload };
    let h = send::out_header(t.cfg, s, s.send_seq, false);
    one_frame_never_overflows(f);
    assert(send::out_fault(t.cfg, h, f) != Some(ProtocolError::RetransmitOverflow));
    assert(send::sent(t.cfg, s, ch, msg_id, payload, now) is Overflow);
}

/// A frame is not refused for what waits.
proof fn one_frame_never_overflows(f: FrameView)
    ensures
        datagram::frames_fault(seq![f], 16) != Some(ProtocolError::RetransmitOverflow),
{
    assert(seq![f].skip(1) =~= Seq::<FrameView>::empty());
    reveal_with_fuel(datagram::frames_fault, 2);
}

/// A session is still there once something was charged to it.
proof fn charging_keeps_the_session(t: TableData, sess_id: u64, k: u32, bytes: u64, now: Nanos)
    requires
        table::table_wf(t),
        send::is_conn_of(t, sess_id, k),
    ensures
        ({
            let u = send::budget_checked(t, sess_id, bytes, now).0;
            table::table_wf(u) && send::is_conn_of(u, sess_id, k)
        }),
{
    send::conn_is_unique(t, sess_id, k);
    let s = t.sessions[k];
    let after = send::budgeted(s, bytes, now).0;
    send::recent_sum(s.bytes_window, now);
    let w = send::recent(s.bytes_window, now);
    assert(w.push((now, bytes)).drop_last() =~= w);
    send::update_keeps_wf(t, k, after);
}

/// A session for which too many packets wait is gone.
proof fn full_queues_remove(
    t: TableData,
    sess_id: u64,
    k: u32,
    ch: u8,
    msg_id: u16,
    payload: Seq<u8>,
    now: Nanos,
)
    requires
        table::table_wf(t),
        send::is_conn_of(t, sess_id, k),
        send::packed_out(t, sess_id, ch, msg_id, payload, now).1 == Err::<
            Seq<(Seq<u8>, PeerAddr)>,
            Error,
        >(Error::Protocol(ProtocolError::RetransmitOverflow)),
    ensures
        !send::packed_out(t, sess_id, ch, msg_id, payload, now).0.sessions.contains_key(k),
{
    send::conn_is_unique(t, sess_id, k);
    one_frame_never_overflows(FrameView { ch, msg_id, body: payload });
}

} // verus!
