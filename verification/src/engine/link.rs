//! What the logic server can rely on: reports, greetings, restarts.

use vstd::prelude::*;

use crate::engine::duties;
use crate::engine::{self, EngineData};
use crate::error::ProtocolError;
use crate::protocol::frame::{self, LinkFrame};
use crate::protocol::types::Nanos;
use crate::reliable::rtt;
use crate::session::inbound;
use crate::session::table::maintain;
use crate::session::table::{SessionTableConfig, TableData};
use crate::stats::StatsSnapshot;
use crate::wire;

verus! {

/// A gap is counted in whole milliseconds, as far as 32 bits hold it; there is none if time seems
/// to run backwards.
pub proof fn gaps_are_milliseconds(now: Nanos, since: Nanos)
    ensures
        ({
            let gap = inbound::gap_ms(now, since);
            &&& now <= since ==> gap == 0
            &&& since <= now < since + 4_294_967_296_000_000 ==> gap * 1_000_000 <= now - since < gap
                * 1_000_000 + 1_000_000
            &&& now >= since + 4_294_967_296_000_000 ==> gap == 0xFFFF_FFFF
        }),
{
}

/// The report on a session: its id and its average round-trip time in milliseconds; loss and
/// throughput are reported as zero.
pub open spec fn report_on(t: TableData, k: u32) -> LinkFrame {
    LinkFrame {
        ty: 0x20,
        body: wire::le_bytes(t.sessions[k].sess_id as nat, 8) + wire::le_bytes(
            rtt::srtt_ms_of(t.sessions[k].rtt) as nat,
            2,
        ) + seq![0u8, 0u8, 0u8, 0u8],
    }
}

/// The notice of overload: the low 32 bits of how much was dropped in each direction.
pub open spec fn notice_of(s: StatsSnapshot) -> LinkFrame {
    LinkFrame {
        ty: 0x2F,
        body: wire::le_bytes(s.dropped_up as nat % 0x1_0000_0000, 4) + wire::le_bytes(
            s.dropped_down as nat % 0x1_0000_0000,
            4,
        ),
    }
}

/// Two bytes of zero.
proof fn two_zeros()
    ensures
        wire::le_bytes(0, 2) == seq![0u8, 0u8],
{
    reveal_with_fuel(wire::le_bytes, 3);
    assert(wire::le_bytes(0, 2) =~= seq![0u8, 0u8]);
}

/// Every second a logic server that is there and keeps up gets a report on each session, once, and
/// then the notice of overload if one is due; the sessions are left alone.
pub proof fn every_session_is_reported_on(d: EngineData, now: Nanos, e: EngineData)
    requires
        engine::is_second(d, now, e),
    ensures
        e.table == d.table,
        exists|order: Seq<u32>| #[trigger]
            maintain::is_walk(d.table, order) && (d.online && d.up.len() + order.len() < 4096
                ==> e == (EngineData {
                up: d.up + order.map_values(|k: u32| report_on(d.table, k)) + (if d.overload_due {
                    seq![notice_of(d.stats)]
                } else {
                    Seq::empty()
                }),
                overload_due: false,
                ..d
            })),
{
    let order = choose|order: Seq<u32>| #[trigger]
        maintain::is_walk(d.table, order) && e == engine::overload_told(
            engine::frames_pushed(d, engine::stats_frames(d.table, order), true, now),
            now,
        );
    let frames = engine::stats_frames(d.table, order);
    let reports = order.map_values(|k: u32| report_on(d.table, k));
    two_zeros();
    assert forall|i: int| 0 <= i < order.len() implies frames[i] == reports[i] by {
        let s = d.table.sessions[order[i]];
        let head = wire::le_bytes(s.sess_id as nat, 8) + wire::le_bytes(
            rtt::srtt_ms_of(s.rtt) as nat,
            2,
        );
        assert(head + seq![0u8, 0u8] + seq![0u8, 0u8] =~= head + seq![0u8, 0u8, 0u8, 0u8]);
    }
    assert(frames =~= reports);
    frames_leave_the_table(d, frames, true, now);
    assert(maintain::is_walk(d.table, order));
    if d.online && d.up.len() + order.len() < 4096 {
        duties::frames_wait_in_order(d, frames, true, now);
        let all = d.up + reports;
        assert(all + Seq::<LinkFrame>::empty() =~= all);
        assert(all.push(notice_of(d.stats)) =~= all + seq![notice_of(d.stats)]);
    }
}

/// Frames towards the logic server leave the sessions alone.
proof fn frames_leave_the_table(
    d: EngineData,
    frames: Seq<LinkFrame>,
    droppable: bool,
    now: Nanos,
)
    ensures
        engine::frames_pushed(d, frames, droppable, now).table == d.table,
    decreases frames.len(),
{
    if frames.len() > 0 {
        frames_leave_the_table(d, frames.drop_last(), droppable, now);
    }
}

/// A logic server that comes back is told of every session that lives, once each, and for how long
/// it was away.
pub proof fn restarts_are_told_of_every_session(
    t: TableData,
    order: Seq<u32>,
    gap_ms: u32,
    k: u32,
)
    requires
        maintain::is_walk(t, order),
    ensures
        ({
            let frames = engine::resume_frames(t, order, gap_ms);
            &&& frames.len() == order.len()
            &&& t.sessions.contains_key(k) ==> frames.contains(
                LinkFrame {
                    ty: 0x03,
                    body: wire::le_bytes(t.sessions[k].sess_id as nat, 8) + wire::le_bytes(
                        gap_ms as nat,
                        4,
                    ),
                },
            )
            &&& forall|i: int|
                0 <= i < frames.len() ==> t.sessions.contains_key(order[i]) && (
                #[trigger] frames[i]).ty == 0x03 && frame::session_resume_of(frames[i].body) == Ok::<
                    (u64, u32),
                    ProtocolError,
                >((t.sessions[order[i]].sess_id, gap_ms))
        }),
{
    let frames = engine::resume_frames(t, order, gap_ms);
    if t.sessions.contains_key(k) {
        assert(order.contains(k));
        let i = order.index_of(k);
        assert(frames[i].body == frame::session_resume_body(t.sessions[k].sess_id, gap_ms));
    }
    assert forall|i: int| 0 <= i < frames.len() implies t.sessions.contains_key(order[i]) && (
    #[trigger] frames[i]).ty == 0x03 && frame::session_resume_of(frames[i].body) == Ok::<
        (u64, u32),
        ProtocolError,
    >((t.sessions[order[i]].sess_id, gap_ms)) by {
        assert(order.contains(order[i]));
        frame::session_resume_round_trip(t.sessions[order[i]].sess_id, gap_ms);
    }
}

/// A connection starts afresh: the engine is online with an empty queue, the next pause is one
/// second, and the connection is counted. Nothing else changes.
pub proof fn connections_start_afresh(d: EngineData)
    ensures
        engine::connected(d) == (EngineData {
            online: true,
            up: Seq::empty(),
            backoff: 1_000_000_000,
            stats: StatsSnapshot {
                logic_reconnects: ((d.stats.logic_reconnects + 1)
                    % 0x1_0000_0000_0000_0000) as u64,
                ..d.stats
            },
            ..d
        }),
{
}

/// A broken link takes what waited for it along; the pause before the next try is twice as long,
/// up to eight seconds. Nothing else changes, and no session notices.
pub proof fn broken_links_lose_the_queue(d: EngineData)
    ensures
        ({
            let e = engine::disconnected(d);
            &&& !e.online
            &&& e.up.len() == 0
            &&& e.backoff == if d.backoff <= 4_000_000_000 {
                2 * d.backoff
            } else {
                8_000_000_000
            }
            &&& e == (EngineData { online: false, up: e.up, backoff: e.backoff, ..d })
        }),
{
}

/// An engine starts without sessions, without a logic server, and with nothing to say.
pub proof fn engines_start_empty(cfg: SessionTableConfig, version: u16, caps: u32, now: Nanos)
    ensures
        ({
            let d = engine::started(cfg, version, caps, now);
            &&& d.table.sessions == Map::<u32, crate::session::peer::SessionData>::empty()
            &&& d.table.pending.dom() == Set::<crate::addr::PeerAddr>::empty()
            &&& d.table.next_conn_id == 1
            &&& d.table.next_sess_id == 1
            &&& d.table.cfg == cfg
            &&& !d.online
            &&& d.up.len() == 0
            &&& !d.overload_due
            &&& d.last_online == now
            &&& d.last_heartbeat == now
            &&& d.last_overload == now
            &&& d.backoff == 1_000_000_000
            &&& d.version == version
            &&& d.caps == caps
        }),
{
}

/// The notice of overload is told when one is due, and then no more is due; when none is due,
/// nothing happens.
pub proof fn notices_are_told_once(d: EngineData, now: Nanos)
    ensures
        !d.overload_due ==> engine::overload_told(d, now) == d,
        d.overload_due ==> engine::overload_told(d, now) == engine::pushed(
            EngineData { overload_due: false, ..d },
            notice_of(d.stats),
            false,
            now,
        ),
{
}

} // verus!
