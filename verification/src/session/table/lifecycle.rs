//! What time promises and what it threatens: every session ages, every lost packet is sent again.

use vstd::prelude::*;

use crate::addr::PeerAddr;
use crate::protocol::types::Nanos;
use crate::reliable::retransmit::{self, Pending};
use crate::reliable::rtt;
use crate::session::event::Event;
use crate::session::peer::{self, SessionData, SessionState};
use crate::session::table::laws;
use crate::session::table::maintain;
use crate::session::table::{self, SessionTableConfig, TableData};

verus! {

// The limits.

/// Fixed limits are those of the configuration. Adaptive ones are the upper bound while the round
/// trip is unknown or shorter than a millisecond; then they grow with it, thirty round trips of
/// silence and a hundred and twenty of grace, as far as the bounds let them.
pub proof fn limits_follow_the_round_trip(cfg: SessionTableConfig, s: SessionData)
    requires
        maintain::bounds_ordered(cfg),
    ensures
        ({
            let idle = maintain::idle_limit(cfg, s);
            let grace = maintain::grace_limit(cfg, s);
            let trip = rtt::srtt_ms_of(s.rtt) * 1_000_000;
            &&& !cfg.dynamic_timeouts ==> idle == cfg.idle_grace && grace == cfg.reconnect_grace
            &&& cfg.dynamic_timeouts && trip == 0 ==> idle == cfg.timeout_max && grace
                == cfg.reconnect_max
            &&& cfg.dynamic_timeouts && trip > 0 ==> {
                &&& cfg.timeout_min <= 30 * trip <= cfg.timeout_max ==> idle == 30 * trip
                &&& 30 * trip < cfg.timeout_min ==> idle == cfg.timeout_min
                &&& 30 * trip > cfg.timeout_max ==> idle == cfg.timeout_max
                &&& cfg.reconnect_min <= 120 * trip <= cfg.reconnect_max ==> grace == 120 * trip
                &&& 120 * trip < cfg.reconnect_min ==> grace == cfg.reconnect_min
                &&& 120 * trip > cfg.reconnect_max ==> grace == cfg.reconnect_max
            }
        }),
{
}

// Silence and grace.

/// The event that closes a session at the end of its grace period.
pub open spec fn end_of(s: SessionData) -> Event {
    Event::Close { sess_id: s.sess_id, reason: 1 }
}

/// Whether the grace period of a session that is there is over.
pub open spec fn has_ended(t: TableData, k: u32, now: Nanos) -> bool {
    &&& t.sessions.contains_key(k)
    &&& t.sessions[k].state matches SessionState::Grace { since } && since + maintain::grace_limit(
        t.cfg,
        t.sessions[k],
    ) <= now
}

/// Silence alone decides. A session that is active and from which nothing came for as long as its
/// limit enters the grace period, whatever else it has to do; one from which something came since
/// does not.
pub proof fn silent_sessions_enter_the_grace_period(
    t: TableData,
    order: Seq<u32>,
    now: Nanos,
    k: u32,
)
    requires
        maintain::is_walk(t, order),
        t.sessions.contains_key(k),
        t.sessions[k].state == SessionState::Active,
    ensures
        ({
            let s = t.sessions[k];
            let u = maintain::all_aged(t, order, now).0;
            let limit = maintain::idle_limit(t.cfg, s);
            &&& u.sessions.contains_key(k)
            &&& s.last_rx + limit <= now ==> u.sessions[k] == (SessionData {
                state: SessionState::Grace { since: now },
                ..s
            })
            &&& limit > 0 && now < s.last_rx + limit ==> u.sessions[k] == s
        }),
{
    laws::ageing_does_not_depend_on_the_order(t, order, now);
}

/// A grace period that has lasted for its limit ends the session, whatever else is going on; until
/// then the session stays as it is.
pub proof fn grace_periods_end(t: TableData, order: Seq<u32>, now: Nanos, k: u32, since: Nanos)
    requires
        maintain::is_walk(t, order),
        t.sessions.contains_key(k),
        t.sessions[k].state == (SessionState::Grace { since }),
    ensures
        ({
            let s = t.sessions[k];
            let u = maintain::all_aged(t, order, now).0;
            let limit = maintain::grace_limit(t.cfg, s);
            &&& since + limit <= now ==> !u.sessions.contains_key(k)
            &&& limit > 0 && now < since + limit ==> u.sessions.contains_key(k) && u.sessions[k]
                == s
        }),
{
    laws::ageing_does_not_depend_on_the_order(t, order, now);
}

/// What part of a walk reports.
proof fn ends_so_far(t: TableData, order: Seq<u32>, now: Nanos)
    requires
        table::table_wf(t),
        order.no_duplicates(),
        forall|k: u32| #[trigger] order.contains(k) ==> t.sessions.contains_key(k),
    ensures
        ({
            let (u, events) = maintain::all_aged(t, order, now);
            &&& forall|k: u32| #[trigger]
                order.contains(k) && has_ended(t, k, now) ==> events.contains(
                    end_of(t.sessions[k]),
                )
            &&& forall|j: int|
                0 <= j < events.len() ==> is_end(t, order, now, #[trigger] events[j])
            &&& events.no_duplicates()
            &&& u.stats.sessions_active == (t.stats.sessions_active - events.len())
                % 0x1_0000_0000_0000_0000
            &&& u == (TableData { sessions: u.sessions, stats: u.stats, ..t })
        }),
    decreases order.len(),
{
    if order.len() > 0 {
        let first = order.drop_last();
        let k = order.last();
        assert(order.contains(k)) by {
            assert(order[order.len() - 1] == k);
        }
        assert forall|j: u32| #[trigger] first.contains(j) implies t.sessions.contains_key(j) by {
            let i = first.index_of(j);
            assert(order[i] == j);
            assert(order.contains(j));
        }
        assert(!first.contains(k)) by {
            if first.contains(k) {
                let i = first.index_of(k);
                assert(order[i] == order[order.len() - 1]);
            }
        }
        ends_so_far(t, first, now);
        laws::ageing_so_far(t, first, now);
        let (u, events) = maintain::all_aged(t, first, now);
        let (v, more) = maintain::aged(u, k, now);
        let all = events + more;
        assert(t.sessions.contains_key(k));
        assert(u.sessions.contains_key(k));
        assert(u.sessions[k] == t.sessions[k]);
        assert forall|j: u32| #[trigger] order.contains(j) && has_ended(t, j, now) implies
            all.contains(end_of(t.sessions[j])) by {
            if j == k {
                assert(more =~= seq![end_of(t.sessions[k])]);
                assert(all[events.len() as int] == end_of(t.sessions[k]));
            } else {
                let i = order.index_of(j);
                assert(first[i] == j);
                assert(first.contains(j));
                let e = events.index_of(end_of(t.sessions[j]));
                assert(all[e] == end_of(t.sessions[j]));
            }
        }
        assert forall|j: int| 0 <= j < all.len() implies is_end(
            t,
            order,
            now,
            #[trigger] all[j],
        ) by {
            if j < events.len() {
                assert(is_end(t, first, now, events[j]));
                let i = choose|i: u32| #[trigger]
                    first.contains(i) && may_end(t, i, now) && events[j] == end_of(t.sessions[i]);
                let at = first.index_of(i);
                assert(order[at] == i);
                assert(order.contains(i));
            } else {
                assert(order.contains(k) && may_end(t, k, now));
            }
        }
        assert(all.no_duplicates()) by {
            assert forall|a: int, b: int| 0 <= a < b < all.len() implies all[a] != all[b] by {
                if b >= events.len() {
                    assert(is_end(t, first, now, events[a]));
                    let i = choose|i: u32| #[trigger]
                        first.contains(i) && may_end(t, i, now) && events[a] == end_of(
                            t.sessions[i],
                        );
                    assert(t.sessions.contains_key(i) && t.sessions.contains_key(k) && i != k);
                }
            }
        }
    }
}

/// Whether the grace period of a session has lasted for its limit, or no limit is set.
spec fn may_end(t: TableData, k: u32, now: Nanos) -> bool {
    &&& t.sessions.contains_key(k)
    &&& t.sessions[k].state matches SessionState::Grace { since } && (since + maintain::grace_limit(
        t.cfg,
        t.sessions[k],
    ) <= now || maintain::grace_limit(t.cfg, t.sessions[k]) == 0)
}

/// Whether an event closes a session of the walk whose grace period is over.
spec fn is_end(t: TableData, order: Seq<u32>, now: Nanos, e: Event) -> bool {
    exists|k: u32| #[trigger]
        order.contains(k) && may_end(t, k, now) && e == end_of(t.sessions[k])
}

/// Whether an event closes a session whose grace period has lasted for its limit.
pub open spec fn is_due_end(t: TableData, now: Nanos, e: Event) -> bool {
    exists|k: u32| #[trigger] has_ended(t, k, now) && e == end_of(t.sessions[k])
}

/// The logic server hears of every session that ends by silence, once, and of no other: exactly
/// one close with the reason of a timeout for each grace period that is over.
pub proof fn ends_are_reported_once(t: TableData, order: Seq<u32>, now: Nanos)
    requires
        table::table_wf(t),
        maintain::is_walk(t, order),
        forall|k: u32| #[trigger]
            t.sessions.contains_key(k) ==> maintain::grace_limit(t.cfg, t.sessions[k]) > 0,
    ensures
        ({
            let (u, events) = maintain::all_aged(t, order, now);
            &&& events.no_duplicates()
            &&& forall|k: u32| #[trigger]
                has_ended(t, k, now) ==> events.contains(end_of(t.sessions[k]))
            &&& forall|j: int| 0 <= j < events.len() ==> is_due_end(t, now, #[trigger] events[j])
            &&& u.stats.sessions_active == (t.stats.sessions_active - events.len())
                % 0x1_0000_0000_0000_0000
        }),
{
    ends_so_far(t, order, now);
    let events = maintain::all_aged(t, order, now).1;
    assert forall|k: u32| #[trigger] has_ended(t, k, now) implies events.contains(
        end_of(t.sessions[k]),
    ) by {
        assert(order.contains(k));
    }
    assert forall|j: int| 0 <= j < events.len() implies is_due_end(t, now, #[trigger] events[j]) by {
        assert(is_end(t, order, now, events[j]));
        let k = choose|k: u32| #[trigger]
            order.contains(k) && may_end(t, k, now) && events[j] == end_of(t.sessions[k]);
        assert(has_ended(t, k, now));
    }
}

/// How many of the sessions in `order` are active and were silent for their limit.
pub open spec fn silent_in(t: TableData, order: Seq<u32>, now: Nanos) -> nat
    decreases order.len(),
{
    if order.len() == 0 {
        0
    } else {
        let s = t.sessions[order.last()];
        let before = silent_in(t, order.drop_last(), now);
        if s.state == SessionState::Active && s.last_rx + maintain::idle_limit(t.cfg, s) <= now {
            before + 1
        } else {
            before
        }
    }
}

/// Sessions that enter the grace period are counted, and so are those that end; nothing else is.
pub proof fn ageing_is_counted(t: TableData, order: Seq<u32>, now: Nanos)
    requires
        table::table_wf(t),
        order.no_duplicates(),
        forall|k: u32| #[trigger] order.contains(k) ==> t.sessions.contains_key(k),
        forall|k: u32| #[trigger]
            t.sessions.contains_key(k) ==> maintain::idle_limit(t.cfg, t.sessions[k]) > 0,
    ensures
        ({
            let u = maintain::all_aged(t, order, now).0;
            &&& u.stats.sessions_grace == (t.stats.sessions_grace + silent_in(t, order, now))
                % 0x1_0000_0000_0000_0000
            &&& u.stats == (crate::stats::StatsSnapshot {
                sessions_active: u.stats.sessions_active,
                sessions_grace: u.stats.sessions_grace,
                ..t.stats
            })
        }),
    decreases order.len(),
{
    if order.len() > 0 {
        let first = order.drop_last();
        let k = order.last();
        assert(order[order.len() - 1] == k);
        assert(order.contains(k));
        assert forall|j: u32| #[trigger] first.contains(j) implies t.sessions.contains_key(j) by {
            let i = first.index_of(j);
            assert(order[i] == j);
            assert(order.contains(j));
        }
        assert(!first.contains(k)) by {
            if first.contains(k) {
                let i = first.index_of(k);
                assert(order[i] == order[order.len() - 1]);
            }
        }
        ageing_is_counted(t, first, now);
        laws::ageing_so_far(t, first, now);
        let u = maintain::all_aged(t, first, now).0;
        assert(u.sessions.contains_key(k));
        assert(u.sessions[k] == t.sessions[k]);
    }
}

/// A shutdown takes every session off the count of those that are active.
pub proof fn shutdowns_are_counted(t: TableData, order: Seq<u32>)
    ensures
        ({
            let u = maintain::all_closed(t, order).0;
            &&& u.stats.sessions_active == (t.stats.sessions_active - order.len())
                % 0x1_0000_0000_0000_0000
            &&& u.stats == (crate::stats::StatsSnapshot {
                sessions_active: u.stats.sessions_active,
                ..t.stats
            })
            &&& u == (TableData { sessions: u.sessions, stats: u.stats, ..t })
        }),
    decreases order.len(),
{
    if order.len() > 0 {
        shutdowns_are_counted(t, order.drop_last());
    }
}

/// Every session whose grace period has lasted for its limit is reported.
pub proof fn ended_sessions_are_reported(t: TableData, order: Seq<u32>, now: Nanos, k: u32)
    requires
        table::table_wf(t),
        maintain::is_walk(t, order),
        has_ended(t, k, now),
    ensures
        maintain::all_aged(t, order, now).1.contains(
            Event::Close { sess_id: t.sessions[k].sess_id, reason: 1 },
        ),
{
    ends_so_far(t, order, now);
    assert(order.contains(k));
    assert(maintain::all_aged(t, order, now).1.contains(end_of(t.sessions[k])));
}

/// Ageing changes sessions and counts, and nothing else of the table: no challenge, no id, no
/// configuration.
pub proof fn ageing_changes_only_sessions(t: TableData, order: Seq<u32>, now: Nanos)
    requires
        table::table_wf(t),
        maintain::is_walk(t, order),
    ensures
        ({
            let u = maintain::all_aged(t, order, now).0;
            &&& u == (TableData { sessions: u.sessions, stats: u.stats, ..t })
            &&& u.sessions.dom().subset_of(t.sessions.dom())
        }),
{
    ends_so_far(t, order, now);
    laws::ageing_does_not_depend_on_the_order(t, order, now);
}

/// Ageing leaves the table sound.
pub proof fn ageing_keeps_the_table_sound(t: TableData, order: Seq<u32>, now: Nanos)
    requires
        table::table_wf(t),
        maintain::is_walk(t, order),
    ensures
        table::table_wf(maintain::all_aged(t, order, now).0),
{
    let u = maintain::all_aged(t, order, now).0;
    laws::ageing_does_not_depend_on_the_order(t, order, now);
    ends_so_far(t, order, now);
    assert forall|j: u32| #[trigger] u.sessions.contains_key(j) implies peer::session_wf(
        u.sessions[j],
    ) && u.sessions[j].conn_id == j && u.sessions[j].sess_id == t.sessions[j].sess_id
        && t.sessions.contains_key(j) by {}
}

/// A session that stays silent for good is closed: once it is in the grace period, nothing but a
/// datagram of its own keeps it there beyond the limit. Two walks are enough, one when the silence
/// has lasted too long and one when the grace period has.
pub proof fn lost_clients_are_closed(
    t: TableData,
    first: Seq<u32>,
    second: Seq<u32>,
    k: u32,
    now: Nanos,
    later: Nanos,
)
    requires
        table::table_wf(t),
        t.sessions.contains_key(k),
        t.sessions[k].state == SessionState::Active,
        t.sessions[k].last_rx + maintain::idle_limit(t.cfg, t.sessions[k]) <= now,
        now + maintain::grace_limit(t.cfg, t.sessions[k]) <= later,
        maintain::is_walk(t, first),
        maintain::is_walk(maintain::all_aged(t, first, now).0, second),
    ensures
        ({
            let u = maintain::all_aged(t, first, now).0;
            let (v, events) = maintain::all_aged(u, second, later);
            &&& u.sessions[k].state == (SessionState::Grace { since: now })
            &&& !v.sessions.contains_key(k)
            &&& events.contains(
                Event::Close { sess_id: t.sessions[k].sess_id, reason: 1 },
            )
        }),
{
    let u = maintain::all_aged(t, first, now).0;
    silent_sessions_enter_the_grace_period(t, first, now, k);
    ageing_keeps_the_table_sound(t, first, now);
    ageing_changes_only_sessions(t, first, now);
    grace_periods_end(u, second, later, k, now);
    ends_so_far(u, second, later);
    assert(has_ended(u, k, later));
    assert(second.contains(k));
    assert(end_of(u.sessions[k]) == end_of(t.sessions[k]));
}

// Sending again.

/// Whether a packet was last sent a timeout ago or longer.
pub open spec fn is_overdue(s: SessionData, e: Pending, now: Nanos) -> bool {
    e.sent_at + rtt::rto_of(s.rtt) <= now
}

/// Whether a datagram is one that has waited for a timeout or longer, on one of the reliable
/// channels of a session, on its way to the session's peer.
pub open spec fn is_resend(t: TableData, now: Nanos, d: (Seq<u8>, PeerAddr)) -> bool {
    exists|k: u32| #[trigger] t.sessions.contains_key(k) && is_resend_of(t.sessions[k], now, d)
}

/// Whether a datagram is one that has waited for a timeout or longer in a session.
pub open spec fn is_resend_of(s: SessionData, now: Nanos, d: (Seq<u8>, PeerAddr)) -> bool {
    d.1 == s.peer && ((exists|i: int|
        0 <= i < s.retrans_ordered.len() && is_overdue(s, #[trigger] s.retrans_ordered[i], now)
            && d.0 == s.retrans_ordered[i].datagram) || (exists|i: int|
        0 <= i < s.retrans_unordered.len() && is_overdue(
            s,
            #[trigger] s.retrans_unordered[i],
            now,
        ) && d.0 == s.retrans_unordered[i].datagram))
}

/// How many packets of the sessions in `order` have waited for a timeout or longer.
pub open spec fn overdue_in(t: TableData, order: Seq<u32>, now: Nanos) -> nat
    decreases order.len(),
{
    if order.len() == 0 {
        0
    } else {
        let s = t.sessions[order.last()];
        let rto = rtt::rto_of(s.rtt);
        overdue_in(t, order.drop_last(), now) + retransmit::overdue(s.retrans_ordered, now, rto)
            + retransmit::overdue(s.retrans_unordered, now, rto)
    }
}

/// What goes out again of one session: every packet that is overdue, on either reliable channel,
/// and nothing else.
proof fn resends_of_one(s: SessionData, now: Nanos)
    ensures
        ({
            let rto = rtt::rto_of(s.rtt);
            let out = maintain::resends(s, now);
            &&& out.len() == retransmit::overdue(s.retrans_ordered, now, rto)
                + retransmit::overdue(s.retrans_unordered, now, rto)
            &&& forall|i: int|
                0 <= i < s.retrans_ordered.len() && is_overdue(
                    s,
                    #[trigger] s.retrans_ordered[i],
                    now,
                ) ==> out.contains((s.retrans_ordered[i].datagram, s.peer))
            &&& forall|i: int|
                0 <= i < s.retrans_unordered.len() && is_overdue(
                    s,
                    #[trigger] s.retrans_unordered[i],
                    now,
                ) ==> out.contains((s.retrans_unordered[i].datagram, s.peer))
            &&& forall|j: int| 0 <= j < out.len() ==> is_resend_of(s, now, #[trigger] out[j])
        }),
{
    let rto = rtt::rto_of(s.rtt);
    rtt::rto_stays_in_limits(s.rtt);
    retransmit::overdue_packets_go_out_once(s.retrans_ordered, now, rto);
    retransmit::overdue_packets_go_out_once(s.retrans_unordered, now, rto);
    let a = retransmit::due_packets(s.retrans_ordered, now, rto);
    let b = retransmit::due_packets(s.retrans_unordered, now, rto);
    let out = maintain::resends(s, now);
    assert forall|i: int|
        0 <= i < s.retrans_ordered.len() && is_overdue(
            s,
            #[trigger] s.retrans_ordered[i],
            now,
        ) implies out.contains((s.retrans_ordered[i].datagram, s.peer)) by {
        let e = s.retrans_ordered[i];
        let j = a.index_of((e.seq, e.datagram));
        assert(out[j] == (e.datagram, s.peer));
    }
    assert forall|i: int|
        0 <= i < s.retrans_unordered.len() && is_overdue(
            s,
            #[trigger] s.retrans_unordered[i],
            now,
        ) implies out.contains((s.retrans_unordered[i].datagram, s.peer)) by {
        let e = s.retrans_unordered[i];
        let j = b.index_of((e.seq, e.datagram));
        assert(out[a.len() + j] == (e.datagram, s.peer));
    }
    assert forall|j: int| 0 <= j < out.len() implies is_resend_of(s, now, #[trigger] out[j]) by {
        if j < a.len() {
            assert(retransmit::is_overdue_packet(s.retrans_ordered, now, rto, a[j]));
            let i = choose|i: int|
                0 <= i < s.retrans_ordered.len() && (#[trigger] s.retrans_ordered[i]).sent_at + rto
                    <= now && a[j] == (s.retrans_ordered[i].seq, s.retrans_ordered[i].datagram);
            assert(is_overdue(s, s.retrans_ordered[i], now));
        } else {
            assert(retransmit::is_overdue_packet(s.retrans_unordered, now, rto, b[j - a.len()]));
            let i = choose|i: int|
                0 <= i < s.retrans_unordered.len() && (#[trigger] s.retrans_unordered[i]).sent_at
                    + rto <= now && b[j - a.len()] == (
                    s.retrans_unordered[i].seq,
                    s.retrans_unordered[i].datagram,
                );
            assert(is_overdue(s, s.retrans_unordered[i], now));
        }
    }
}

/// What part of a walk sends again.
proof fn resends_so_far(t: TableData, order: Seq<u32>, now: Nanos)
    requires
        table::table_wf(t),
        order.no_duplicates(),
        forall|k: u32| #[trigger] order.contains(k) ==> t.sessions.contains_key(k),
    ensures
        ({
            let (u, out) = maintain::all_refreshed(t, order, now);
            &&& out.len() == overdue_in(t, order, now)
            &&& u == (TableData { sessions: u.sessions, stats: u.stats, ..t })
            &&& u.stats == (crate::stats::StatsSnapshot {
                retransmits: u.stats.retransmits,
                ..t.stats
            })
            &&& u.stats.retransmits == (t.stats.retransmits + out.len()) % 0x1_0000_0000_0000_0000
            &&& forall|k: u32| #[trigger]
                u.sessions.contains_key(k) <==> t.sessions.contains_key(k)
            &&& forall|k: u32| #[trigger]
                u.sessions.contains_key(k) ==> u.sessions[k] == if order.contains(k) {
                    maintain::refreshed(t.sessions[k], now)
                } else {
                    t.sessions[k]
                }
            &&& forall|j: int| 0 <= j < out.len() ==> is_resend(t, now, #[trigger] out[j])
        }),
    decreases order.len(),
{
    if order.len() > 0 {
        let first = order.drop_last();
        let k = order.last();
        assert(order[order.len() - 1] == k);
        assert(order.contains(k));
        assert forall|j: u32| #[trigger] first.contains(j) implies t.sessions.contains_key(j) by {
            let i = first.index_of(j);
            assert(order[i] == j);
            assert(order.contains(j));
        }
        assert(!first.contains(k)) by {
            if first.contains(k) {
                let i = first.index_of(k);
                assert(order[i] == order[order.len() - 1]);
            }
        }
        assert forall|j: u32| #[trigger] order.contains(j) <==> first.contains(j) || j == k by {
            if order.contains(j) && j != k {
                let i = order.index_of(j);
                assert(first[i] == j);
            }
            if first.contains(j) {
                let i = first.index_of(j);
                assert(order[i] == j);
            }
        }
        resends_so_far(t, first, now);
        let (u, out) = maintain::all_refreshed(t, first, now);
        assert(u.sessions.contains_key(k));
        assert(u.sessions[k] == t.sessions[k]);
        resends_of_one(t.sessions[k], now);
        let more = maintain::resends(t.sessions[k], now);
        let all = out + more;
        assert forall|j: int| 0 <= j < all.len() implies is_resend(t, now, #[trigger] all[j]) by {
            if j < out.len() {
                assert(is_resend(t, now, out[j]));
            } else {
                assert(t.sessions.contains_key(k) && is_resend_of(
                    t.sessions[k],
                    now,
                    more[j - out.len()],
                ));
            }
        }
        few_are_overdue(t.sessions[k].retrans_ordered, now, rtt::rto_of(t.sessions[k].rtt));
        few_are_overdue(t.sessions[k].retrans_unordered, now, rtt::rto_of(t.sessions[k].rtt));
        assert(more.len() as u64 == more.len());
    }
}

/// No more packets are overdue than wait.
proof fn few_are_overdue(q: Seq<Pending>, now: Nanos, rto: Nanos)
    ensures
        retransmit::overdue(q, now, rto) <= q.len(),
    decreases q.len(),
{
    if q.len() > 0 {
        few_are_overdue(q.drop_last(), now, rto);
    }
}

/// What goes out again of a session of the walk goes out.
proof fn resends_are_sent(t: TableData, order: Seq<u32>, now: Nanos, k: u32)
    requires
        table::table_wf(t),
        order.no_duplicates(),
        forall|j: u32| #[trigger] order.contains(j) ==> t.sessions.contains_key(j),
        order.contains(k),
    ensures
        forall|j: int|
            0 <= j < maintain::resends(t.sessions[k], now).len() ==> maintain::all_refreshed(
                t,
                order,
                now,
            ).1.contains(#[trigger] maintain::resends(t.sessions[k], now)[j]),
    decreases order.len(),
{
    let first = order.drop_last();
    let last = order.last();
    let (u, out) = maintain::all_refreshed(t, first, now);
    assert forall|j: u32| #[trigger] first.contains(j) implies t.sessions.contains_key(j) by {
        let i = first.index_of(j);
        assert(order[i] == j);
        assert(order.contains(j));
    }
    assert(order[order.len() - 1] == last);
    assert(order.contains(last));
    assert(!first.contains(last)) by {
        if first.contains(last) {
            let i = first.index_of(last);
            assert(order[i] == order[order.len() - 1]);
        }
    }
    resends_so_far(t, first, now);
    assert(u.sessions.contains_key(last));
    assert(u.sessions[last] == t.sessions[last]);
    let mine = maintain::resends(t.sessions[k], now);
    let more = maintain::resends(t.sessions[last], now);
    let all = out + more;
    if k != last {
        let i = order.index_of(k);
        assert(first[i] == k);
        assert(first.contains(k));
        resends_are_sent(t, first, now, k);
    }
    assert forall|j: int| 0 <= j < mine.len() implies all.contains(#[trigger] mine[j]) by {
        if k == last {
            assert(all[out.len() + j] == mine[j]);
        } else {
            assert(out.contains(mine[j]));
            let i = out.index_of(mine[j]);
            assert(all[i] == mine[j]);
        }
    }
}

/// What is lost on a reliable channel is sent again: of every session, every packet of channel 2
/// and of channel 3 that was last sent a timeout ago or longer goes out to the session's peer, with
/// the bytes it was first sent with.
pub proof fn lost_packets_are_sent_again(
    t: TableData,
    order: Seq<u32>,
    now: Nanos,
    k: u32,
    i: int,
)
    requires
        table::table_wf(t),
        maintain::is_walk(t, order),
        t.sessions.contains_key(k),
    ensures
        ({
            let s = t.sessions[k];
            let out = maintain::all_refreshed(t, order, now).1;
            &&& 0 <= i < s.retrans_ordered.len() && is_overdue(s, s.retrans_ordered[i], now)
                ==> out.contains((s.retrans_ordered[i].datagram, s.peer))
            &&& 0 <= i < s.retrans_unordered.len() && is_overdue(s, s.retrans_unordered[i], now)
                ==> out.contains((s.retrans_unordered[i].datagram, s.peer))
        }),
{
    let s = t.sessions[k];
    let out = maintain::all_refreshed(t, order, now).1;
    let mine = maintain::resends(s, now);
    assert(order.contains(k));
    resends_are_sent(t, order, now, k);
    resends_of_one(s, now);
    if 0 <= i < s.retrans_ordered.len() && is_overdue(s, s.retrans_ordered[i], now) {
        let j = mine.index_of((s.retrans_ordered[i].datagram, s.peer));
        assert(out.contains(mine[j]));
    }
    if 0 <= i < s.retrans_unordered.len() && is_overdue(s, s.retrans_unordered[i], now) {
        let j = mine.index_of((s.retrans_unordered[i].datagram, s.peer));
        assert(out.contains(mine[j]));
    }
}

/// Nothing else is sent again, and nothing twice: every datagram is that of a packet which has
/// waited for a timeout or longer, there are as many as there are such packets, and as many are
/// counted.
pub proof fn only_lost_packets_are_sent_again(t: TableData, order: Seq<u32>, now: Nanos)
    requires
        table::table_wf(t),
        maintain::is_walk(t, order),
    ensures
        ({
            let (u, out) = maintain::all_refreshed(t, order, now);
            &&& out.len() == overdue_in(t, order, now)
            &&& forall|j: int| 0 <= j < out.len() ==> is_resend(t, now, #[trigger] out[j])
            &&& u.stats.retransmits == (t.stats.retransmits + out.len()) % 0x1_0000_0000_0000_0000
        }),
{
    resends_so_far(t, order, now);
}

/// Whether a queue is what another is once the packets that waited for `rto` went out: the same
/// packets in the same order, with the clocks of those that went out at `now`.
pub open spec fn went_out(was: Seq<Pending>, is: Seq<Pending>, now: Nanos, rto: Nanos) -> bool {
    &&& is.len() == was.len()
    &&& forall|i: int|
        0 <= i < was.len() ==> {
            &&& (#[trigger] is[i]).seq == was[i].seq
            &&& is[i].datagram == was[i].datagram
            &&& was[i].sent_at + rto <= now ==> is[i].sent_at == now
            &&& was[i].sent_at + rto > now ==> is[i].sent_at == was[i].sent_at
        }
}

/// A packet that went out again waits for another timeout, and no packet is forgotten for it. Of
/// groups of fragments only those without a fragment for ten seconds are given up. Nothing else of
/// any session changes.
pub proof fn packets_wait_until_acknowledged(t: TableData, order: Seq<u32>, now: Nanos, k: u32)
    requires
        table::table_wf(t),
        maintain::is_walk(t, order),
    ensures
        ({
            let u = maintain::all_refreshed(t, order, now).0;
            let s = t.sessions[k];
            let r = u.sessions[k];
            let rto = rtt::rto_of(s.rtt);
            &&& u.sessions.contains_key(k) <==> t.sessions.contains_key(k)
            &&& t.sessions.contains_key(k) ==> {
                &&& went_out(s.retrans_ordered, r.retrans_ordered, now, rto)
                &&& went_out(s.retrans_unordered, r.retrans_unordered, now, rto)
                &&& r.assembly.completed == s.assembly.completed
                &&& forall|g: u16| #[trigger]
                    r.assembly.pending.contains_key(g) <==> s.assembly.pending.contains_key(g)
                        && now < s.assembly.pending[g].last_update + 10_000_000_000
                &&& forall|g: u16| #[trigger]
                    r.assembly.pending.contains_key(g) ==> r.assembly.pending[g]
                        == s.assembly.pending[g]
                &&& r == (SessionData {
                    retrans_ordered: r.retrans_ordered,
                    retrans_unordered: r.retrans_unordered,
                    assembly: r.assembly,
                    ..s
                })
            }
            &&& u.pending == t.pending
            &&& u.cfg == t.cfg
            &&& u.next_conn_id == t.next_conn_id
            &&& u.next_sess_id == t.next_sess_id
        }),
{
    resends_so_far(t, order, now);
    if t.sessions.contains_key(k) {
        let s = t.sessions[k];
        rtt::rto_stays_in_limits(s.rtt);
        assert(order.contains(k));
        retransmit::clocks_start_anew(s.retrans_ordered, now, rtt::rto_of(s.rtt));
        retransmit::clocks_start_anew(s.retrans_unordered, now, rtt::rto_of(s.rtt));
        let r = maintain::all_refreshed(t, order, now).0.sessions[k];
        assert(maintain::all_refreshed(t, order, now).0.sessions.contains_key(k));
        assert(r == maintain::refreshed(s, now));
        assert(went_out(s.retrans_ordered, r.retrans_ordered, now, rtt::rto_of(s.rtt)));
        assert(went_out(s.retrans_unordered, r.retrans_unordered, now, rtt::rto_of(s.rtt)));
    }
}

} // verus!
