//! What channels 0, 1 and 3 promise, whatever the network loses, repeats or reorders.

use vstd::prelude::*;

use crate::collections;
use crate::protocol::datagram::{DatagramHeader, FrameView};
use crate::protocol::types::{
    Nanos, CH_RELIABLE_UNORDERED, CH_UNRELIABLE_SEQUENCED, CH_UNRELIABLE_UNORDERED,
};
use crate::reliable::serial;
use crate::session::event::Event;
use crate::session::inbound::{self, Inbound};
use crate::session::peer::{SessionData, CH3_SEEN_CAP};

verus! {

/// A frame that arrives: the header it came with, and when.
pub struct FrameArrival {
    pub header: DatagramHeader,
    pub frame: FrameView,
    pub now: Nanos,
}

/// What frames lead to, one after the other.
pub open spec fn after_frames(i: Inbound, arrivals: Seq<FrameArrival>) -> Inbound
    decreases arrivals.len(),
{
    if arrivals.len() == 0 {
        i
    } else {
        let a = arrivals.last();
        inbound::frame_received(after_frames(i, arrivals.drop_last()), a.header, a.frame, a.now)
    }
}

/// Whether all frames are on channel `ch`.
pub open spec fn all_on(arrivals: Seq<FrameArrival>, ch: u8) -> bool {
    forall|j: int| 0 <= j < arrivals.len() ==> (#[trigger] arrivals[j]).frame.ch == ch
}

/// Whether a session delivers a frame: on channel 1 if it is newer than all before it, on channel
/// 3 if it was not seen lately, on channel 0 always.
pub open spec fn is_taken(s: SessionData, a: FrameArrival) -> bool {
    if a.frame.ch == CH_UNRELIABLE_SEQUENCED {
        s.ch1_last is None || serial::is_newer(a.header.seq, s.ch1_last->0)
    } else if a.frame.ch == CH_RELIABLE_UNORDERED {
        !s.ch3_seen.contains(a.header.seq)
    } else {
        a.frame.ch == CH_UNRELIABLE_UNORDERED
    }
}

/// Which of the frames are delivered.
pub open spec fn taken(i: Inbound, arrivals: Seq<FrameArrival>) -> Seq<int>
    decreases arrivals.len(),
{
    if arrivals.len() == 0 {
        Seq::empty()
    } else {
        let before = taken(i, arrivals.drop_last());
        if is_taken(after_frames(i, arrivals.drop_last()).session, arrivals.last()) {
            before.push(arrivals.len() - 1)
        } else {
            before
        }
    }
}

/// The events that deliver the frames in `which`.
pub open spec fn told(sess_id: u64, arrivals: Seq<FrameArrival>, which: Seq<int>) -> Seq<Event> {
    which.map_values(
        |j: int|
            Event::Data {
                sess_id,
                ch: arrivals[j].frame.ch,
                msg_id: arrivals[j].frame.msg_id,
                payload: arrivals[j].frame.body,
            },
    )
}

/// The frames that are delivered are among those that arrived, in the order of arrival, and they
/// are delivered as they are: nothing is made up, nothing is changed.
proof fn deliveries_are_arrivals(i: Inbound, arrivals: Seq<FrameArrival>, ch: u8)
    requires
        ch == CH_UNRELIABLE_UNORDERED || ch == CH_UNRELIABLE_SEQUENCED || ch
            == CH_RELIABLE_UNORDERED,
        all_on(arrivals, ch),
    ensures
        after_frames(i, arrivals).events == i.events + told(
            i.session.sess_id,
            arrivals,
            taken(i, arrivals),
        ),
        after_frames(i, arrivals).session.sess_id == i.session.sess_id,
        forall|a: int|
            0 <= a < taken(i, arrivals).len() ==> 0 <= #[trigger] taken(i, arrivals)[a]
                < arrivals.len(),
        forall|a: int, b: int|
            0 <= a < b < taken(i, arrivals).len() ==> #[trigger] taken(i, arrivals)[a]
                < #[trigger] taken(i, arrivals)[b],
    decreases arrivals.len(),
{
    if arrivals.len() == 0 {
        assert(i.events + told(i.session.sess_id, arrivals, taken(i, arrivals)) =~= i.events);
    } else {
        let init = arrivals.drop_last();
        assert(all_on(init, ch)) by {
            assert forall|j: int| 0 <= j < init.len() implies (#[trigger] init[j]).frame.ch
                == ch by {
                assert(init[j] == arrivals[j]);
            }
        }
        deliveries_are_arrivals(i, init, ch);
        assert(arrivals[arrivals.len() - 1].frame.ch == ch);
        let id = i.session.sess_id;
        assert(told(id, arrivals, taken(i, init)) =~= told(id, init, taken(i, init)));
        assert(after_frames(i, arrivals).events =~= i.events + told(id, arrivals, taken(i, arrivals)));
    }
}

/// Channel 0 delivers every frame that arrives, in the order of arrival.
pub proof fn channel_0_delivers_everything(i: Inbound, arrivals: Seq<FrameArrival>)
    requires
        all_on(arrivals, CH_UNRELIABLE_UNORDERED),
    ensures
        after_frames(i, arrivals).events == i.events + told(
            i.session.sess_id,
            arrivals,
            Seq::new(arrivals.len(), |j: int| j),
        ),
    decreases arrivals.len(),
{
    deliveries_are_arrivals(i, arrivals, CH_UNRELIABLE_UNORDERED);
    all_are_taken(i, arrivals);
}

/// On channel 0 every frame is taken.
proof fn all_are_taken(i: Inbound, arrivals: Seq<FrameArrival>)
    requires
        all_on(arrivals, CH_UNRELIABLE_UNORDERED),
    ensures
        taken(i, arrivals) == Seq::new(arrivals.len(), |j: int| j),
    decreases arrivals.len(),
{
    if arrivals.len() == 0 {
        assert(taken(i, arrivals) =~= Seq::new(arrivals.len(), |j: int| j));
    } else {
        let init = arrivals.drop_last();
        assert forall|j: int| 0 <= j < init.len() implies (#[trigger] init[j]).frame.ch
            == CH_UNRELIABLE_UNORDERED by {
            assert(init[j] == arrivals[j]);
        }
        all_are_taken(i, init);
        assert(arrivals[arrivals.len() - 1].frame.ch == CH_UNRELIABLE_UNORDERED);
        assert(taken(i, arrivals) =~= Seq::new(arrivals.len(), |j: int| j));
    }
}

/// Channel 1 delivers what arrives as long as it is the newest: each frame that is delivered is
/// newer than the one delivered before it, and the last one delivered is not older than any frame
/// that has just arrived.
pub proof fn channel_1_never_goes_back(i: Inbound, arrivals: Seq<FrameArrival>)
    requires
        i.session.ch1_last is None,
        all_on(arrivals, CH_UNRELIABLE_SEQUENCED),
    ensures
        ({
            let t = taken(i, arrivals);
            &&& after_frames(i, arrivals).events == i.events + told(i.session.sess_id, arrivals, t)
            &&& forall|a: int|
                0 < a < t.len() ==> serial::is_newer(
                    arrivals[#[trigger] t[a]].header.seq,
                    arrivals[t[a - 1]].header.seq,
                )
            &&& arrivals.len() > 0 ==> t.len() > 0 && !serial::is_newer(
                arrivals.last().header.seq,
                arrivals[t.last()].header.seq,
            )
        }),
{
    deliveries_are_arrivals(i, arrivals, CH_UNRELIABLE_SEQUENCED);
    newest_is_remembered(i, arrivals);
}

/// Channel 1 remembers the last frame it delivered.
proof fn newest_is_remembered(i: Inbound, arrivals: Seq<FrameArrival>)
    requires
        i.session.ch1_last is None,
        all_on(arrivals, CH_UNRELIABLE_SEQUENCED),
    ensures
        ({
            let t = taken(i, arrivals);
            let last = after_frames(i, arrivals).session.ch1_last;
            &&& t.len() == 0 <==> last is None
            &&& t.len() > 0 ==> last == Some(arrivals[t.last()].header.seq)
            &&& t.len() == 0 <==> arrivals.len() == 0
            &&& forall|a: int|
                0 < a < t.len() ==> serial::is_newer(
                    arrivals[#[trigger] t[a]].header.seq,
                    arrivals[t[a - 1]].header.seq,
                )
            &&& arrivals.len() > 0 ==> !serial::is_newer(
                arrivals.last().header.seq,
                arrivals[t.last()].header.seq,
            )
        }),
    decreases arrivals.len(),
{
    if arrivals.len() > 0 {
        let init = arrivals.drop_last();
        assert forall|j: int| 0 <= j < init.len() implies (#[trigger] init[j]).frame.ch
            == CH_UNRELIABLE_SEQUENCED by {
            assert(init[j] == arrivals[j]);
        }
        newest_is_remembered(i, init);
        deliveries_are_arrivals(i, init, CH_UNRELIABLE_SEQUENCED);
        assert(arrivals[arrivals.len() - 1].frame.ch == CH_UNRELIABLE_SEQUENCED);
        let t = taken(i, arrivals);
        let u = taken(i, init);
        assert forall|a: int| 0 < a < t.len() implies serial::is_newer(
            arrivals[#[trigger] t[a]].header.seq,
            arrivals[t[a - 1]].header.seq,
        ) by {
            assert(t[a - 1] == u[a - 1]);
            assert(init[u[a - 1]] == arrivals[t[a - 1]]);
            if a < u.len() {
                assert(t[a] == u[a]);
                assert(init[u[a]] == arrivals[t[a]]);
            }
        }
        if u.len() > 0 {
            assert(init[u.last()] == arrivals[u.last()]);
        }
    }
}

/// The sequence numbers of the frames in `which`.
pub open spec fn numbers(arrivals: Seq<FrameArrival>, which: Seq<int>) -> Seq<u16> {
    which.map_values(|j: int| arrivals[j].header.seq)
}

/// Whether no number comes back within the next `n`.
pub open spec fn far_apart(d: Seq<u16>, n: int) -> bool {
    forall|a: int, b: int| 0 <= a < b < d.len() && b - a <= n ==> #[trigger] d[a] != #[trigger] d[b]
}

/// The last `n` numbers, or all if there are no more.
spec fn latest(d: Seq<u16>, n: int) -> Seq<u16> {
    if d.len() <= n {
        d
    } else {
        d.skip(d.len() - n)
    }
}

/// Channel 3 delivers every number that arrives, and none twice: before a number is delivered
/// again, `CH3_SEEN_CAP` others have been.
pub proof fn channel_3_delivers_once(i: Inbound, arrivals: Seq<FrameArrival>)
    requires
        i.session.ch3_seen.len() == 0,
        all_on(arrivals, CH_RELIABLE_UNORDERED),
    ensures
        ({
            let t = taken(i, arrivals);
            &&& after_frames(i, arrivals).events == i.events + told(i.session.sess_id, arrivals, t)
            &&& far_apart(numbers(arrivals, t), CH3_SEEN_CAP as int)
            &&& forall|j: int|
                0 <= j < arrivals.len() ==> numbers(arrivals, t).contains(
                    (#[trigger] arrivals[j]).header.seq,
                )
        }),
{
    deliveries_are_arrivals(i, arrivals, CH_RELIABLE_UNORDERED);
    latest_are_remembered(i, arrivals);
}

/// One more number that is not among the latest.
proof fn one_more(d: Seq<u16>, x: u16, n: int)
    requires
        n > 0,
        far_apart(d, n),
        !latest(d, n).contains(x),
    ensures
        far_apart(d.push(x), n),
        collections::push_capped(latest(d, n), x, n as nat) == latest(d.push(x), n),
{
    let e = d.push(x);
    let l = latest(d, n);
    assert forall|a: int, b: int| 0 <= a < b < e.len() && b - a <= n implies #[trigger] e[a]
        != #[trigger] e[b] by {
        if b == d.len() {
            assert(l[a - (d.len() - l.len())] == d[a]);
        }
    }
    assert(collections::push_capped(l, x, n as nat) =~= latest(e, n));
}

/// Channel 3 remembers the latest numbers it delivered.
proof fn latest_are_remembered(i: Inbound, arrivals: Seq<FrameArrival>)
    requires
        i.session.ch3_seen.len() == 0,
        all_on(arrivals, CH_RELIABLE_UNORDERED),
    ensures
        ({
            let d = numbers(arrivals, taken(i, arrivals));
            &&& after_frames(i, arrivals).session.ch3_seen == latest(d, CH3_SEEN_CAP as int)
            &&& far_apart(d, CH3_SEEN_CAP as int)
            &&& forall|j: int|
                0 <= j < arrivals.len() ==> d.contains((#[trigger] arrivals[j]).header.seq)
        }),
    decreases arrivals.len(),
{
    let d = numbers(arrivals, taken(i, arrivals));
    if arrivals.len() == 0 {
        assert(i.session.ch3_seen =~= latest(d, CH3_SEEN_CAP as int));
    } else {
        let init = arrivals.drop_last();
        assert forall|j: int| 0 <= j < init.len() implies (#[trigger] init[j]).frame.ch
            == CH_RELIABLE_UNORDERED by {
            assert(init[j] == arrivals[j]);
        }
        latest_are_remembered(i, init);
        deliveries_are_arrivals(i, init, CH_RELIABLE_UNORDERED);
        let before = numbers(init, taken(i, init));
        let x = arrivals.last().header.seq;
        let n = CH3_SEEN_CAP as int;
        assert(arrivals[arrivals.len() - 1].frame.ch == CH_RELIABLE_UNORDERED);
        assert(before =~= numbers(arrivals, taken(i, init)));
        if latest(before, n).contains(x) {
            assert(d == before);
            let k = choose|k: int| 0 <= k < latest(before, n).len() && latest(before, n)[k] == x;
            assert(before[before.len() - latest(before, n).len() + k] == x);
        } else {
            assert(d =~= before.push(x));
            one_more(before, x, n);
            assert(d[before.len() as int] == x);
        }
        assert forall|j: int| 0 <= j < arrivals.len() implies d.contains(
            (#[trigger] arrivals[j]).header.seq,
        ) by {
            if j < init.len() {
                assert(init[j] == arrivals[j]);
                let a = choose|a: int| 0 <= a < before.len() && before[a] == init[j].header.seq;
                assert(d[a] == before[a]);
            }
        }
    }
}

} // verus!
