//! What a budget promises over a series of messages.

use vstd::prelude::*;

use crate::protocol::types::{Nanos, SECOND};
use crate::reliable::retransmit;
use crate::session::peer::{self, SessionData};
use crate::session::table::send;
use crate::session::table::{self, TableData};

verus! {

/// The table after a series of questions whether a session may send so many bytes at a time, and
/// the answers.
pub open spec fn asked(t: TableData, sess_id: u64, calls: Seq<(Nanos, u64)>) -> (
    TableData,
    Seq<bool>,
)
    decreases calls.len(),
{
    if calls.len() == 0 {
        (t, Seq::empty())
    } else {
        let (u, answers) = asked(t, sess_id, calls.drop_last());
        let (v, ok) = send::budget_checked(u, sess_id, calls.last().1, calls.last().0);
        (v, answers.push(ok))
    }
}

/// Whether the times of some questions never go back.
pub open spec fn in_order(calls: Seq<(Nanos, u64)>) -> bool {
    forall|i: int, j: int| 0 <= i <= j < calls.len() ==> calls[i].0 <= calls[j].0
}

/// The questions that were answered with yes.
pub open spec fn allowed(calls: Seq<(Nanos, u64)>, answers: Seq<bool>) -> Seq<(Nanos, u64)>
    decreases calls.len(),
{
    if calls.len() == 0 {
        Seq::empty()
    } else {
        let before = allowed(calls.drop_last(), answers);
        if answers[calls.len() - 1] {
            before.push(calls.last())
        } else {
            before
        }
    }
}

/// The bytes of all that is less than a second old.
pub open spec fn lately(w: Seq<(Nanos, u64)>, now: Nanos) -> nat
    decreases w.len(),
{
    if w.len() == 0 {
        0
    } else if now - w.last().0 < SECOND {
        lately(w.drop_last(), now) + w.last().1 as nat
    } else {
        lately(w.drop_last(), now)
    }
}

/// The bytes of the allowed questions among those from `i` up to, not including, `j`.
pub open spec fn allowed_between(
    calls: Seq<(Nanos, u64)>,
    answers: Seq<bool>,
    i: int,
    j: int,
) -> nat
    decreases j - i,
{
    if i >= j {
        0
    } else if answers[j - 1] {
        allowed_between(calls, answers, i, j - 1) + calls[j - 1].1 as nat
    } else {
        allowed_between(calls, answers, i, j - 1)
    }
}

/// The oldest entry can be taken out of what is recent.
proof fn lately_front(w: Seq<(Nanos, u64)>, now: Nanos)
    requires
        w.len() > 0,
    ensures
        lately(w, now) == lately(w.skip(1), now) + if now - w[0].0 < SECOND {
            w[0].1 as nat
        } else {
            0
        },
    decreases w.len(),
{
    if w.len() > 1 {
        lately_front(w.drop_last(), now);
        assert(w.drop_last().skip(1) =~= w.skip(1).drop_last());
    } else {
        reveal_with_fuel(lately, 2);
        assert(w.drop_last() =~= w.skip(1));
    }
}

/// Where everything is recent, it all counts.
proof fn all_is_recent(w: Seq<(Nanos, u64)>, now: Nanos)
    requires
        forall|i: int| 0 <= i < w.len() ==> now - (#[trigger] w[i]).0 < SECOND,
    ensures
        lately(w, now) == peer::window_sum(w),
    decreases w.len(),
{
    if w.len() > 0 {
        all_is_recent(w.drop_last(), now);
    }
}

/// What a window forgets does not count any more, now or later, and what it keeps all counts.
proof fn recent_is_what_counts(w: Seq<(Nanos, u64)>, now: Nanos)
    requires
        in_order(w),
        forall|i: int| 0 <= i < w.len() ==> (#[trigger] w[i]).0 <= now,
    ensures
        in_order(send::recent(w, now)),
        forall|i: int|
            0 <= i < send::recent(w, now).len() ==> (#[trigger] send::recent(w, now)[i]).0 <= now,
        peer::window_sum(send::recent(w, now)) == lately(w, now),
        forall|n: Nanos| n >= now ==> #[trigger] lately(send::recent(w, now), n) == lately(w, n),
    decreases w.len(),
{
    if w.len() > 0 && retransmit::elapsed(now, w[0].0) >= SECOND {
        let rest = w.skip(1);
        assert forall|i: int| 0 <= i < rest.len() implies (#[trigger] rest[i]).0 <= now by {
            assert(rest[i] == w[i + 1]);
        }
        recent_is_what_counts(rest, now);
        assert forall|n: Nanos| n >= now implies #[trigger] lately(send::recent(w, now), n)
            == lately(w, n) by {
            lately_front(w, n);
        }
        lately_front(w, now);
    } else {
        assert forall|i: int| 0 <= i < w.len() implies now - (#[trigger] w[i]).0 < SECOND by {
            assert(w[0].0 <= w[i].0);
        }
        all_is_recent(w, now);
    }
}

/// Whether a window stands for a record at every time from `now` on.
spec fn stands_for(w: Seq<(Nanos, u64)>, record: Seq<(Nanos, u64)>, now: Nanos) -> bool {
    &&& in_order(w)
    &&& forall|i: int| 0 <= i < w.len() ==> (#[trigger] w[i]).0 <= now
    &&& forall|n: Nanos| n >= now ==> #[trigger] lately(w, n) == lately(record, n)
}

/// One question to a session whose window stands for its record.
proof fn one_question(s: SessionData, record: Seq<(Nanos, u64)>, bytes: u64, now: Nanos, kbps: u16)
    requires
        peer::session_wf(s),
        s.budget_kbps == Some(kbps),
        stands_for(s.bytes_window, record, now),
    ensures
        ({
            let (after, ok) = send::budgeted(s, bytes, now);
            &&& peer::session_wf(after)
            &&& after == SessionData { bytes_window: after.bytes_window, ..s }
            &&& ok <==> lately(record, now) + bytes <= kbps as nat * 125
            &&& stands_for(
                after.bytes_window,
                if ok {
                    record.push((now, bytes))
                } else {
                    record
                },
                now,
            )
        }),
{
    let w = s.bytes_window;
    let r = send::recent(w, now);
    let (after, ok) = send::budgeted(s, bytes, now);
    recent_is_what_counts(w, now);
    send::recent_sum(w, now);
    assert(lately(w, now) == lately(record, now));
    if ok {
        let p = r.push((now, bytes));
        let q = record.push((now, bytes));
        assert(p.drop_last() =~= r);
        assert(q.drop_last() =~= record);
        assert forall|n: Nanos| n >= now implies #[trigger] lately(p, n) == lately(q, n) by {
            assert(lately(r, n) == lately(w, n));
            assert(lately(w, n) == lately(record, n));
        }
    } else {
        assert forall|n: Nanos| n >= now implies #[trigger] lately(r, n) == lately(record, n) by {
            assert(lately(w, n) == lately(record, n));
        }
    }
}

/// What a series of questions leaves of a session with a budget.
proof fn after_a_series(
    t: TableData,
    sess_id: u64,
    k: u32,
    calls: Seq<(Nanos, u64)>,
    now: Nanos,
    kbps: u16,
)
    requires
        table::table_wf(t),
        send::is_conn_of(t, sess_id, k),
        t.sessions[k].budget_kbps == Some(kbps),
        in_order(t.sessions[k].bytes_window + calls),
        forall|i: int|
            0 <= i < (t.sessions[k].bytes_window + calls).len() ==> (#[trigger] (
            t.sessions[k].bytes_window + calls)[i]).0 <= now,
    ensures
        ({
            let s = t.sessions[k];
            let (u, answers) = asked(t, sess_id, calls);
            &&& table::table_wf(u)
            &&& send::is_conn_of(u, sess_id, k)
            &&& u == send::with_session(
                t,
                k,
                SessionData { bytes_window: u.sessions[k].bytes_window, ..s },
            )
            &&& answers.len() == calls.len()
            &&& stands_for(
                u.sessions[k].bytes_window,
                s.bytes_window + allowed(calls, answers),
                now,
            )
        }),
    decreases calls.len(),
{
    let s = t.sessions[k];
    let w = s.bytes_window;
    if calls.len() == 0 {
        assert(w + allowed(calls, Seq::<bool>::empty()) =~= w);
        assert(w + calls =~= w);
        assert(send::with_session(t, k, s) =~= t);
        assert(s == SessionData { bytes_window: w, ..s });
    } else {
        let (last, bytes) = calls.last();
        let first = calls.drop_last();
        assert forall|i: int| 0 <= i < (w + first).len() implies (#[trigger] (w + first)[i]).0
            <= last by {
            assert((w + first)[i] == (w + calls)[i]);
            assert(calls.last() == (w + calls)[(w + calls).len() - 1]);
        }
        assert forall|i: int, j: int| 0 <= i <= j < (w + first).len() implies (w + first)[i].0 <= (w
            + first)[j].0 by {
            assert((w + first)[i] == (w + calls)[i]);
            assert((w + first)[j] == (w + calls)[j]);
        }
        after_a_series(t, sess_id, k, first, last, kbps);
        let (u, answers) = asked(t, sess_id, first);
        let record = w + allowed(first, answers);
        send::conn_is_unique(u, sess_id, k);
        one_question(u.sessions[k], record, bytes, last, kbps);
        let (after, ok) = send::budgeted(u.sessions[k], bytes, last);
        send::update_keeps_wf(u, k, after);
        let (v, all) = asked(t, sess_id, calls);
        assert(v == send::with_session(u, k, after));
        assert(v =~= send::with_session(
            t,
            k,
            SessionData { bytes_window: v.sessions[k].bytes_window, ..s },
        ));
        same_answers(first, answers, all);
        assert(allowed(calls, all) == if ok {
            allowed(first, answers).push((last, bytes))
        } else {
            allowed(first, answers)
        });
        assert(record.push((last, bytes)) =~= w + allowed(first, answers).push((last, bytes)));
        assert((w + calls)[(w + calls).len() - 1] == calls.last());
    }
}

/// Only the answers to the questions count.
proof fn same_answers(calls: Seq<(Nanos, u64)>, a: Seq<bool>, b: Seq<bool>)
    requires
        a.len() >= calls.len(),
        b.len() >= calls.len(),
        forall|i: int| 0 <= i < calls.len() ==> a[i] == b[i],
    ensures
        allowed(calls, a) == allowed(calls, b),
    decreases calls.len(),
{
    if calls.len() > 0 {
        same_answers(calls.drop_last(), a, b);
    }
}

/// A budget is what may be sent in a second. Of a series of questions at times that do not go
/// back, one is answered with yes if and only if what was allowed in the second before it, and the
/// bytes it asks for, fit the budget. What was refused does not count.
pub proof fn allowed_iff_the_last_second_fits(
    t: TableData,
    sess_id: u64,
    k: u32,
    calls: Seq<(Nanos, u64)>,
    bytes: u64,
    now: Nanos,
    kbps: u16,
)
    requires
        table::table_wf(t),
        send::is_conn_of(t, sess_id, k),
        t.sessions[k].budget_kbps == Some(kbps),
        in_order(t.sessions[k].bytes_window + calls.push((now, bytes))),
    ensures
        ({
            let (u, answers) = asked(t, sess_id, calls);
            let record = t.sessions[k].bytes_window + allowed(calls, answers);
            send::budget_checked(u, sess_id, bytes, now).1 <==> lately(record, now) + bytes
                <= kbps as nat * 125
        }),
{
    let w = t.sessions[k].bytes_window;
    let all = w + calls.push((now, bytes));
    assert(all[all.len() - 1].0 == now);
    assert forall|i: int| 0 <= i < (w + calls).len() implies (#[trigger] (w + calls)[i]).0
        <= now by {
        assert((w + calls)[i] == all[i]);
    }
    assert forall|i: int, j: int| 0 <= i <= j < (w + calls).len() implies (w + calls)[i].0 <= (w
        + calls)[j].0 by {
        assert((w + calls)[i] == all[i]);
        assert((w + calls)[j] == all[j]);
    }
    after_a_series(t, sess_id, k, calls, now, kbps);
    let (u, answers) = asked(t, sess_id, calls);
    send::conn_is_unique(u, sess_id, k);
    one_question(u.sessions[k], w + allowed(calls, answers), bytes, now, kbps);
}

/// A first budget starts from nothing: once it is set, a question is answered with yes if and only
/// if what was allowed since then, in the second before it, and the bytes it asks for fit it.
pub proof fn a_first_budget_starts_from_nothing(
    t: TableData,
    sess_id: u64,
    k: u32,
    calls: Seq<(Nanos, u64)>,
    bytes: u64,
    now: Nanos,
    kbps: u16,
)
    requires
        table::table_wf(t),
        send::is_conn_of(t, sess_id, k),
        t.sessions[k].budget_kbps is None,
        in_order(calls.push((now, bytes))),
    ensures
        ({
            let (u, answers) = asked(send::budget_set(t, sess_id, kbps), sess_id, calls);
            send::budget_checked(u, sess_id, bytes, now).1 <==> lately(
                allowed(calls, answers),
                now,
            ) + bytes <= kbps as nat * 125
        }),
{
    let s = SessionData { budget_kbps: Some(kbps), ..t.sessions[k] };
    let u = send::budget_set(t, sess_id, kbps);
    let w = s.bytes_window;
    let all = calls.push((now, bytes));
    let kept = allowed(calls, asked(u, sess_id, calls).1);
    send::conn_is_unique(t, sess_id, k);
    send::update_keeps_wf(t, k, s);
    assert(send::is_conn_of(u, sess_id, k));
    assert(w + all =~= all);
    assert(w + kept =~= kept);
    allowed_iff_the_last_second_fits(u, sess_id, k, calls, bytes, now, kbps);
}

/// The answers to the first questions of a series.
proof fn first_answers(t: TableData, sess_id: u64, calls: Seq<(Nanos, u64)>, n: int)
    requires
        0 <= n <= calls.len(),
    ensures
        asked(t, sess_id, calls).1.len() == calls.len(),
        asked(t, sess_id, calls.take(n)).1 == asked(t, sess_id, calls).1.take(n),
    decreases calls.len(),
{
    if n == calls.len() {
        assert(calls.take(n) =~= calls);
        if n > 0 {
            first_answers(t, sess_id, calls.drop_last(), 0);
        }
        assert(asked(t, sess_id, calls).1.take(n) =~= asked(t, sess_id, calls).1);
    } else {
        first_answers(t, sess_id, calls.drop_last(), n);
        assert(calls.drop_last().take(n) =~= calls.take(n));
        assert(asked(t, sess_id, calls.drop_last()).1.take(n) =~= asked(t, sess_id, calls).1.take(
            n,
        ));
    }
}

/// What was allowed since a second counts.
proof fn short_spans_count(
    w: Seq<(Nanos, u64)>,
    calls: Seq<(Nanos, u64)>,
    answers: Seq<bool>,
    i: int,
    j: int,
    now: Nanos,
)
    requires
        0 <= i <= j <= calls.len(),
        forall|n: int| i <= n < j ==> now - (#[trigger] calls[n]).0 < SECOND,
    ensures
        allowed_between(calls, answers, i, j) <= lately(w + allowed(calls.take(j), answers), now),
    decreases j,
{
    if i < j {
        short_spans_count(w, calls, answers, i, j - 1, now);
        let first = calls.take(j);
        assert(first.drop_last() =~= calls.take(j - 1));
        let before = allowed(calls.take(j - 1), answers);
        if answers[j - 1] {
            let all = w + before.push(calls[j - 1]);
            assert(all.drop_last() =~= w + before);
            assert(all.last() == calls[j - 1]);
        }
    }
}

/// No span of less than a second ever holds more than the budget: whatever the questions are, what
/// is allowed of those from `i` up to, not including, `j` fits it.
pub proof fn no_short_span_exceeds_the_budget(
    t: TableData,
    sess_id: u64,
    k: u32,
    calls: Seq<(Nanos, u64)>,
    i: int,
    j: int,
    kbps: u16,
)
    requires
        table::table_wf(t),
        send::is_conn_of(t, sess_id, k),
        t.sessions[k].budget_kbps == Some(kbps),
        in_order(t.sessions[k].bytes_window + calls),
        0 <= i < j <= calls.len(),
        calls[j - 1].0 - calls[i].0 < SECOND,
    ensures
        allowed_between(calls, asked(t, sess_id, calls).1, i, j) <= kbps as nat * 125,
    decreases j,
{
    let w = t.sessions[k].bytes_window;
    let all = w + calls;
    let answers = asked(t, sess_id, calls).1;
    let n = w.len() as int;
    assert forall|a: int, b: int| 0 <= a <= b < calls.len() implies calls[a].0 <= calls[b].0 by {
        assert(all[n + a] == calls[a]);
        assert(all[n + b] == calls[b]);
    }
    if answers[j - 1] {
        let (now, bytes) = calls[j - 1];
        let before = calls.take(j - 1);
        let upto = calls.take(j);
        assert(before.push((now, bytes)) =~= upto);
        assert(upto.drop_last() =~= before);
        assert forall|a: int, b: int| 0 <= a <= b < (w + upto).len() implies (w + upto)[a].0 <= (w
            + upto)[b].0 by {
            assert((w + upto)[a] == all[a]);
            assert((w + upto)[b] == all[b]);
        }
        allowed_iff_the_last_second_fits(t, sess_id, k, before, bytes, now, kbps);
        first_answers(t, sess_id, calls, j - 1);
        first_answers(t, sess_id, calls, j);
        same_answers(before, answers.take(j - 1), answers);
        short_spans_count(w, calls, answers, i, j - 1, now);
        assert(asked(t, sess_id, upto).1[j - 1] == answers[j - 1]);
        assert(upto.last() == (now, bytes));
        assert(asked(t, sess_id, before).1.len() == j - 1);
    } else if i == j - 1 {
        reveal_with_fuel(allowed_between, 2);
    } else {
        no_short_span_exceeds_the_budget(t, sess_id, k, calls, i, j - 1, kbps);
    }
}

/// Without a budget, or without a session, everything may be sent and nothing is recorded.
pub proof fn without_a_budget_all_is_allowed(t: TableData, sess_id: u64, calls: Seq<(Nanos, u64)>)
    requires
        send::conn_of(t, sess_id) matches Some(k) ==> t.sessions[k].budget_kbps is None,
    ensures
        asked(t, sess_id, calls).0 == t,
        asked(t, sess_id, calls).1 == Seq::new(calls.len(), |i: int| true),
    decreases calls.len(),
{
    if calls.len() > 0 {
        without_a_budget_all_is_allowed(t, sess_id, calls.drop_last());
        if let Some(k) = send::conn_of(t, sess_id) {
            assert(send::is_conn_of(t, sess_id, k));
            assert(send::with_session(t, k, t.sessions[k]) =~= t);
        }
    }
    assert(asked(t, sess_id, calls).1 =~= Seq::new(calls.len(), |i: int| true));
}

} // verus!
