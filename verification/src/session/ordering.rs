//! What channel 2 promises: every message once, in the order in which it was sent, whatever the
//! network loses, repeats or reorders.

use vstd::prelude::*;

use crate::protocol::datagram::{DatagramHeader, FrameView};
use crate::protocol::types::{Nanos, CH_RELIABLE_ORDERED};
use crate::reliable::fragment::{
    self, Assembly, Fragment, Group, COMPLETED_CAP, FRAGMENT_THRESHOLD, MAX_FRAGMENTS,
};
use crate::reliable::serial;
use crate::session::event::Event;
use crate::session::peer::{self, SessionData, DELIVERED_CAP, PLACEHOLDER};

verus! {

/// A message: its id and its payload.
pub type Sent = (u16, Seq<u8>);

/// A frame that arrives on channel 2: which message of the peer it carries, the header it came
/// with, and when.
pub struct Arrival {
    pub index: int,
    pub header: DatagramHeader,
    pub now: Nanos,
}

/// The sequence number of the peer's message `i`, if it numbers its messages from zero.
pub open spec fn seq_of(i: int) -> u16 {
    serial::seq_plus(0, i)
}

/// Whether a frame carries message `index` whole.
pub open spec fn carries(a: Arrival, messages: Seq<Sent>) -> bool {
    &&& 0 <= a.index < messages.len()
    &&& a.header.seq == seq_of(a.index)
    &&& !peer::is_fragment(a.header)
}

/// No message looks like a placeholder; none that is encoded does.
pub open spec fn are_real(messages: Seq<Sent>) -> bool {
    forall|i: int|
        0 <= i < messages.len() ==> !((#[trigger] messages[i]).0 == PLACEHOLDER
            && messages[i].1.len() == 0)
}

/// The session after frames arrived, and what it delivered.
pub open spec fn after_arrivals(s: SessionData, messages: Seq<Sent>, arrivals: Seq<Arrival>) -> (
    SessionData,
    Seq<Event>,
)
    decreases arrivals.len(),
{
    if arrivals.len() == 0 {
        (s, Seq::empty())
    } else {
        let (t, events) = after_arrivals(s, messages, arrivals.drop_last());
        let a = arrivals.last();
        let (u, more) = peer::ch2_received(t, a.header, frame_of(messages, a.index), a.now);
        (u, events + more)
    }
}

/// The frame of message `i`.
pub open spec fn frame_of(messages: Seq<Sent>, i: int) -> FrameView {
    FrameView { ch: CH_RELIABLE_ORDERED, msg_id: messages[i].0, body: messages[i].1 }
}

/// Whether message `i` has arrived.
pub open spec fn has_arrived(arrivals: Seq<Arrival>, i: int) -> bool {
    exists|k: int| 0 <= k < arrivals.len() && (#[trigger] arrivals[k]).index == i
}

/// Whether `d` is the first message that has not arrived.
pub open spec fn is_first_missing(arrivals: Seq<Arrival>, d: int) -> bool {
    &&& 0 <= d
    &&& !has_arrived(arrivals, d)
    &&& forall|i: int| 0 <= i < d ==> #[trigger] has_arrived(arrivals, i)
}

/// Whether message `i` is near enough to message `d` to be told apart by 16 bits.
pub open spec fn is_near(i: int, d: int) -> bool {
    d - 0x8000 <= i < d + 0x7FFF
}

/// Whether every frame is near the first message that is missing when it arrives.
pub open spec fn stay_near(arrivals: Seq<Arrival>) -> bool {
    forall|k: int, d: int|
        0 <= k < arrivals.len() && #[trigger] is_first_missing(arrivals.take(k), d) ==> is_near(
            #[trigger] arrivals[k].index,
            d,
        )
}

/// The events that deliver messages `from` to `to`.
pub open spec fn deliveries(sess_id: u64, messages: Seq<Sent>, from: int, to: int) -> Seq<Event> {
    Seq::new(
        (to - from) as nat,
        |i: int|
            Event::Data {
                sess_id,
                ch: CH_RELIABLE_ORDERED,
                msg_id: messages[from + i].0,
                payload: messages[from + i].1,
            },
    )
}

/// What the entries `from` to `to` say when they are delivered; a placeholder says nothing.
pub open spec fn told(sess_id: u64, entries: Seq<Sent>, from: int, to: int) -> Seq<Event>
    decreases to - from,
{
    if to <= from {
        Seq::empty()
    } else {
        told(sess_id, entries, from, to - 1) + told_by(sess_id, entries[to - 1])
    }
}

/// What one entry says when it is delivered.
pub open spec fn told_by(sess_id: u64, entry: Sent) -> Seq<Event> {
    if entry.0 == PLACEHOLDER && entry.1.len() == 0 {
        Seq::empty()
    } else {
        seq![
            Event::Data {
                sess_id,
                ch: CH_RELIABLE_ORDERED,
                msg_id: entry.0,
                payload: entry.1,
            },
        ]
    }
}

/// Entries that are told in two parts are told.
proof fn told_in_parts(sess_id: u64, entries: Seq<Sent>, from: int, mid: int, to: int)
    requires
        from <= mid <= to,
    ensures
        told(sess_id, entries, from, mid) + told(sess_id, entries, mid, to) == told(
            sess_id,
            entries,
            from,
            to,
        ),
    decreases to - mid,
{
    if mid < to {
        told_in_parts(sess_id, entries, from, mid, to - 1);
        assert(told(sess_id, entries, from, mid) + told(sess_id, entries, mid, to) =~= (told(
            sess_id,
            entries,
            from,
            mid,
        ) + told(sess_id, entries, mid, to - 1)) + told_by(sess_id, entries[to - 1]));
    } else {
        assert(told(sess_id, entries, from, mid) + told(sess_id, entries, mid, to) =~= told(
            sess_id,
            entries,
            from,
            to,
        ));
    }
}

/// Messages that are no placeholders are all told.
proof fn told_is_deliveries(sess_id: u64, messages: Seq<Sent>, to: int)
    requires
        are_real(messages),
        0 <= to <= messages.len(),
    ensures
        told(sess_id, messages, 0, to) == deliveries(sess_id, messages, 0, to),
    decreases to,
{
    if to > 0 {
        told_is_deliveries(sess_id, messages, to - 1);
        assert(messages[to - 1] == messages[to - 1]);
        assert(told(sess_id, messages, 0, to) =~= deliveries(sess_id, messages, 0, to));
    } else {
        assert(told(sess_id, messages, 0, to) =~= deliveries(sess_id, messages, 0, to));
    }
}

/// A session on whose channel 2 nothing has happened.
pub open spec fn is_untouched(s: SessionData) -> bool {
    &&& s.ch2_next == Some(0u16)
    &&& s.reorder == Map::<u16, (u16, Seq<u8>)>::empty()
    &&& s.delivered_seqs == Seq::<u16>::empty()
    &&& s.delivered_max == 0
}

/// What channel 2 keeps once the first `d` messages were delivered and those in `early` wait.
#[verifier::opaque]
spec fn keeps(s: SessionData, messages: Seq<Sent>, d: int, early: Set<int>) -> bool {
    &&& 0 <= d <= messages.len()
    &&& s.ch2_next == Some(seq_of(d))
    &&& s.delivered_max == (if d == 0 {
        0
    } else {
        seq_of(d - 1)
    })
    &&& forall|i: int| #[trigger] early.contains(i) ==> d <= i < d + 0x8000 && i < messages.len()
    &&& forall|i: int| #[trigger]
        early.contains(i) ==> s.reorder.contains_key(seq_of(i)) && s.reorder[seq_of(i)]
            == messages[i]
    &&& forall|k: u16| #[trigger]
        s.reorder.contains_key(k) ==> early.contains(d + serial::seq_distance(k, seq_of(d)))
    &&& s.delivered_seqs == numbers_before(d)
}

/// The numbers of the last messages before `d`, as many as are remembered.
spec fn numbers_before(d: int) -> Seq<u16> {
    let n = if d < DELIVERED_CAP {
        d
    } else {
        DELIVERED_CAP as int
    };
    Seq::new(n as nat, |j: int| seq_of(d - n + j))
}

/// Two messages less than a circle apart have different numbers.
proof fn near_numbers_differ(i: int, j: int)
    requires
        i < j < i + 0x1_0000,
    ensures
        seq_of(i) != seq_of(j),
{
}

/// How far two numbers are apart.
proof fn distance_of_numbers(i: int, j: int)
    requires
        i <= j < i + 0x1_0000,
    ensures
        serial::seq_distance(seq_of(j), seq_of(i)) == j - i,
        serial::seq_plus(seq_of(i), j - i) == seq_of(j),
{
    serial::seq_plus_adds(0, i, j - i);
}

/// Delivering one message moves everything on by one.
proof fn keeps_step(s: SessionData, messages: Seq<Sent>, d: int, early: Set<int>)
    requires
        keeps(s, messages, d, early),
        early.contains(d),
    ensures
        peer::can_deliver(s),
        keeps(peer::delivered_one(s), messages, d + 1, early.remove(d)),
        peer::event_of_one(s) == told(s.sess_id, messages, d, d + 1),
{
    reveal(keeps);
    let t = peer::delivered_one(s);
    let rest = early.remove(d);
    distance_of_numbers(d, d);
    distance_of_numbers(d, d + 1);
    assert(s.reorder.contains_key(seq_of(d)));
    reveal_with_fuel(told, 2);
    assert(peer::event_of_one(s) =~= told(s.sess_id, messages, d, d + 1));
    assert forall|i: int| #[trigger] rest.contains(i) implies d + 1 <= i < d + 1 + 0x8000 && i
        < messages.len() && t.reorder.contains_key(seq_of(i)) && t.reorder[seq_of(i)]
        == messages[i] by {
        assert(early.contains(i));
        near_numbers_differ(d, i);
    }
    assert forall|k: u16| #[trigger] t.reorder.contains_key(k) implies rest.contains(
        d + 1 + serial::seq_distance(k, seq_of(d + 1)),
    ) by {
        assert(s.reorder.contains_key(k));
        assert(k != seq_of(d));
        serial::distance_from_next(seq_of(d), k);
        serial::plus_of_distance(seq_of(d), k);
    }
    assert(t.delivered_seqs =~= numbers_before(d + 1));
}

/// What is kept lies behind what was delivered, and delivery stops at a gap.
proof fn keeps_bounds(s: SessionData, messages: Seq<Sent>, d: int, early: Set<int>)
    requires
        keeps(s, messages, d, early),
    ensures
        0 <= d <= messages.len(),
        forall|i: int| #[trigger] early.contains(i) ==> d <= i < d + 0x8000,
        peer::can_deliver(s) ==> early.contains(d),
{
    reveal(keeps);
    if peer::can_deliver(s) {
        distance_of_numbers(d, d);
        assert(s.reorder.contains_key(seq_of(d)));
    }
}

/// Delivery from a state that keeps some messages: everything up to the next gap.
proof fn keeps_delivered(
    s: SessionData,
    messages: Seq<Sent>,
    d: int,
    early: Set<int>,
    fuel: nat,
) -> (e: int)
    requires
        keeps(s, messages, d, early),
    ensures
        d <= e <= d + fuel,
        ({
            let (t, events) = peer::in_order(s, fuel);
            &&& keeps(t, messages, e, early.difference(Set::new(|i: int| i < e)))
            &&& events == told(s.sess_id, messages, d, e)
            &&& e < d + fuel ==> !early.contains(e)
            &&& forall|i: int| d <= i < e ==> #[trigger] early.contains(i)
        }),
    decreases fuel,
{
    if fuel > 0 && early.contains(d) {
        keeps_step(s, messages, d, early);
        let t = peer::delivered_one(s);
        let e = keeps_delivered(t, messages, d + 1, early.remove(d), (fuel - 1) as nat);
        assert(early.remove(d).difference(Set::new(|i: int| i < e)) =~= early.difference(
            Set::new(|i: int| i < e),
        ));
        told_in_parts(s.sess_id, messages, d, d + 1, e);
        assert forall|i: int| d <= i < e implies #[trigger] early.contains(i) by {
            if i > d {
                assert(early.remove(d).contains(i));
            }
        }
        if e < d + fuel {
            assert(!early.remove(d).contains(e));
        }
        e
    } else {
        keeps_bounds(s, messages, d, early);
        assert(early.difference(Set::new(|i: int| i < d)) =~= early) by {
            assert forall|i: int| #[trigger] early.contains(i) implies !(i < d) by {}
        }
        d
    }
}

/// The messages that arrived and wait behind message `d`.
spec fn waiting(arrivals: Seq<Arrival>, d: int) -> Set<int> {
    Set::new(|i: int| i >= d && has_arrived(arrivals, i))
}

/// A frame of a message that was delivered changes nothing.
proof fn old_frame(s: SessionData, messages: Seq<Sent>, d: int, early: Set<int>, a: Arrival)
    requires
        keeps(s, messages, d, early),
        carries(a, messages),
        d - 0x8000 <= a.index < d,
    ensures
        peer::ch2_received(s, a.header, frame_of(messages, a.index), a.now) == (
            s,
            Seq::<Event>::empty(),
        ),
{
    reveal(keeps);
    let i = a.index;
    let seq = seq_of(i);
    if !s.delivered_seqs.contains(seq) {
        assert(i < d - DELIVERED_CAP) by {
            if i >= d - DELIVERED_CAP {
                let n = numbers_before(d).len() as int;
                assert(s.delivered_seqs[i - (d - n)] == seq);
            }
        }
        distance_of_numbers(i, d - 1);
        serial::distance_swapped(seq_of(d - 1), seq);
        assert(peer::is_older(seq, s.delivered_max));
        if s.reorder.contains_key(seq) {
            let j = d + serial::seq_distance(seq, seq_of(d));
            assert(early.contains(j));
            serial::plus_of_distance(seq_of(d), seq);
            serial::seq_plus_adds(0, d, j - d);
            near_numbers_differ(i, j);
        }
    }
}

/// A frame of a message that was not delivered is put among the early ones.
proof fn new_frame(s: SessionData, messages: Seq<Sent>, d: int, early: Set<int>, a: Arrival)
    requires
        keeps(s, messages, d, early),
        carries(a, messages),
        d <= a.index < d + 0x7FFF,
    ensures
        ({
            let f = frame_of(messages, a.index);
            let u = SessionData {
                reorder: s.reorder.insert(a.header.seq, (f.msg_id, f.body)),
                ..s
            };
            &&& peer::ch2_received(s, a.header, f, a.now) == peer::delivered(u)
            &&& keeps(u, messages, d, early.insert(a.index))
        }),
{
    reveal(keeps);
    let i = a.index;
    let seq = seq_of(i);
    if s.delivered_seqs.contains(seq) {
        let n = numbers_before(d).len() as int;
        let j = choose|j: int| 0 <= j < s.delivered_seqs.len() && s.delivered_seqs[j] == seq;
        near_numbers_differ(d - n + j, i);
    }
    if d > 0 {
        distance_of_numbers(d - 1, i);
    } else {
        distance_of_numbers(0, i);
    }
    assert(!peer::is_older(seq, s.delivered_max));
    let f = frame_of(messages, i);
    let u = SessionData { reorder: s.reorder.insert(seq, (f.msg_id, f.body)), ..s };
    let more = early.insert(i);
    assert forall|j: int| #[trigger] more.contains(j) implies d <= j < d + 0x8000 && j
        < messages.len() && u.reorder.contains_key(seq_of(j)) && u.reorder[seq_of(j)]
        == messages[j] by {
        if j != i {
            assert(early.contains(j));
            if j < i {
                near_numbers_differ(j, i);
            } else {
                near_numbers_differ(i, j);
            }
        }
    }
    assert forall|k: u16| #[trigger] u.reorder.contains_key(k) implies more.contains(
        d + serial::seq_distance(k, seq_of(d)),
    ) by {
        if k == seq {
            distance_of_numbers(d, i);
        } else {
            assert(s.reorder.contains_key(k));
        }
    }
}

/// Which messages have arrived after one more frame.
proof fn arrived_after(arrivals: Seq<Arrival>, a: Arrival)
    ensures
        forall|j: int| #[trigger]
            has_arrived(arrivals.push(a), j) == (has_arrived(arrivals, j) || j == a.index),
{
    let now = arrivals.push(a);
    assert forall|j: int| #[trigger] has_arrived(now, j) == (has_arrived(arrivals, j) || j
        == a.index) by {
        if has_arrived(arrivals, j) {
            let k = choose|k: int| 0 <= k < arrivals.len() && (#[trigger] arrivals[k]).index == j;
            assert(now[k].index == j);
        }
        if j == a.index {
            assert(now[arrivals.len() as int].index == j);
        }
        if has_arrived(now, j) && j != a.index {
            let k = choose|k: int| 0 <= k < now.len() && (#[trigger] now[k]).index == j;
            assert(arrivals[k].index == j);
        }
    }
}

/// One frame.
proof fn keeps_arrival(
    s: SessionData,
    messages: Seq<Sent>,
    arrivals: Seq<Arrival>,
    a: Arrival,
    d: int,
) -> (e: int)
    requires
        keeps(s, messages, d, waiting(arrivals, d)),
        is_first_missing(arrivals, d),
        carries(a, messages),
        is_near(a.index, d),
    ensures
        d <= e,
        ({
            let (t, events) = peer::ch2_received(s, a.header, frame_of(messages, a.index), a.now);
            &&& keeps(t, messages, e, waiting(arrivals.push(a), e))
            &&& is_first_missing(arrivals.push(a), e)
            &&& events == told(s.sess_id, messages, d, e)
        }),
{
    let i = a.index;
    let early = waiting(arrivals, d);
    let now = arrivals.push(a);
    arrived_after(arrivals, a);
    if i < d {
        assert(waiting(now, d) =~= early);
        old_frame(s, messages, d, early, a);
        d
    } else {
        let f = frame_of(messages, i);
        let u = SessionData { reorder: s.reorder.insert(a.header.seq, (f.msg_id, f.body)), ..s };
        let more = early.insert(i);
        new_frame(s, messages, d, early, a);
        keeps_bounds(u, messages, d, more);
        let e = keeps_delivered(u, messages, d, more, 0x1_0000);
        assert(e < d + 0x1_0000) by {
            if e == d + 0x1_0000 {
                assert(more.contains(d + 0x8000));
            }
        }
        assert(more.difference(Set::new(|j: int| j < e)) =~= waiting(now, e));
        assert(is_first_missing(now, e)) by {
            assert(!more.contains(e));
            assert forall|j: int| 0 <= j < e implies #[trigger] has_arrived(now, j) by {
                if j < d {
                    assert(has_arrived(arrivals, j));
                } else {
                    assert(more.contains(j));
                }
            }
        }
        e
    }
}

/// The state behind `messages_arrive_in_order`.
proof fn arrivals_state(s: SessionData, messages: Seq<Sent>, arrivals: Seq<Arrival>) -> (d: int)
    requires
        is_untouched(s),
        forall|k: int| 0 <= k < arrivals.len() ==> carries(#[trigger] arrivals[k], messages),
        stay_near(arrivals),
    ensures
        is_first_missing(arrivals, d),
        ({
            let (t, events) = after_arrivals(s, messages, arrivals);
            &&& keeps(t, messages, d, waiting(arrivals, d))
            &&& events == told(s.sess_id, messages, 0, d)
            &&& t.sess_id == s.sess_id
            &&& d <= messages.len()
        }),
    decreases arrivals.len(),
{
    if arrivals.len() == 0 {
        reveal(keeps);
        assert(waiting(arrivals, 0) =~= Set::<int>::empty());
        assert(numbers_before(0) =~= Seq::<u16>::empty());
        0
    } else {
        let init = arrivals.drop_last();
        let a = arrivals.last();
        assert(init =~= arrivals.take(arrivals.len() - 1));
        assert forall|k: int| 0 <= k < init.len() implies carries(#[trigger] init[k], messages) by {
            assert(init[k] == arrivals[k]);
        }
        assert(stay_near(init)) by {
            assert forall|k: int, d: int|
                0 <= k < init.len() && #[trigger] is_first_missing(init.take(k), d) implies is_near(
                #[trigger] init[k].index,
                d,
            ) by {
                assert(init.take(k) =~= arrivals.take(k));
                assert(init[k] == arrivals[k]);
            }
        }
        let d = arrivals_state(s, messages, init);
        let (t, events) = after_arrivals(s, messages, init);
        assert(arrivals[arrivals.len() - 1] == a);
        assert(carries(a, messages));
        assert(is_near(arrivals[arrivals.len() - 1].index, d));
        let e = keeps_arrival(t, messages, init, a, d);
        let u = peer::ch2_received(t, a.header, frame_of(messages, a.index), a.now).0;
        keeps_bounds(u, messages, e, waiting(init.push(a), e));
        assert(init.push(a) =~= arrivals);
        peer::ch2_keeps_the_rest(t, a.header, frame_of(messages, a.index), a.now);
        told_in_parts(s.sess_id, messages, 0, d, e);
        e
    }
}

/// Frames may be lost, repeated and reordered. What the session has delivered is always exactly
/// the messages before the first one that is missing: each of them once, none of them changed, in
/// the order in which they were sent. Frames must not be so late or so early that 16 bits cannot
/// tell them apart.
pub proof fn messages_arrive_in_order(
    s: SessionData,
    messages: Seq<Sent>,
    arrivals: Seq<Arrival>,
    d: int,
)
    requires
        is_untouched(s),
        are_real(messages),
        forall|k: int| 0 <= k < arrivals.len() ==> carries(#[trigger] arrivals[k], messages),
        stay_near(arrivals),
        is_first_missing(arrivals, d),
    ensures
        after_arrivals(s, messages, arrivals).1 == deliveries(s.sess_id, messages, 0, d),
{
    let e = arrivals_state(s, messages, arrivals);
    if d < e {
        assert(has_arrived(arrivals, d));
    } else if e < d {
        assert(has_arrived(arrivals, e));
    }
    told_is_deliveries(s.sess_id, messages, d);
}

/// Once every message has arrived at least once, every message has been delivered.
pub proof fn nothing_is_lost(s: SessionData, messages: Seq<Sent>, arrivals: Seq<Arrival>)
    requires
        is_untouched(s),
        are_real(messages),
        forall|k: int| 0 <= k < arrivals.len() ==> carries(#[trigger] arrivals[k], messages),
        stay_near(arrivals),
        forall|i: int| 0 <= i < messages.len() ==> #[trigger] has_arrived(arrivals, i),
    ensures
        after_arrivals(s, messages, arrivals).1 == deliveries(
            s.sess_id,
            messages,
            0,
            messages.len() as int,
        ),
{
    let d = messages.len() as int;
    if has_arrived(arrivals, d) {
        let k = choose|k: int| 0 <= k < arrivals.len() && (#[trigger] arrivals[k]).index == d;
        assert(carries(arrivals[k], messages));
    }
    messages_arrive_in_order(s, messages, arrivals, d);
}

// Messages in fragments.

/// A message as the peer sends it, with the group that its fragments would have.
#[verifier::ext_equal]
pub struct Posted {
    pub msg_id: u16,
    pub payload: Seq<u8>,
    pub group: u16,
}

/// Whether a message is sent in fragments.
pub open spec fn is_split(m: Posted) -> bool {
    m.payload.len() > FRAGMENT_THRESHOLD
}

/// The pieces of a message.
pub open spec fn pieces_of(m: Posted) -> Seq<Seq<u8>> {
    fragment::pieces(m.payload, FRAGMENT_THRESHOLD as nat)
}

/// How many sequence numbers a message takes.
pub open spec fn count(m: Posted) -> int {
    if is_split(m) {
        pieces_of(m).len() as int
    } else {
        1
    }
}

/// Where message `i` starts, if messages take sequence numbers from zero, one after the other.
pub open spec fn start(ms: Seq<Posted>, i: int) -> int
    decreases i,
{
    if i <= 0 {
        0
    } else {
        start(ms, i - 1) + count(ms[i - 1])
    }
}

/// A frame that arrives: which piece of which message it carries, the header it came with, and
/// when.
pub struct PieceArrival {
    pub message: int,
    pub no: int,
    pub header: DatagramHeader,
    pub now: Nanos,
}

/// The sequence position of a piece.
pub open spec fn position(ms: Seq<Posted>, a: PieceArrival) -> int {
    start(ms, a.message) + a.no
}

/// Whether a frame carries the piece that it is said to carry.
pub open spec fn brings(a: PieceArrival, ms: Seq<Posted>) -> bool {
    &&& 0 <= a.message < ms.len()
    &&& 0 <= a.no < count(ms[a.message])
    &&& a.header.seq == seq_of(position(ms, a))
    &&& peer::is_fragment(a.header) == is_split(ms[a.message])
}

/// The frame of a piece.
pub open spec fn piece_frame(ms: Seq<Posted>, a: PieceArrival) -> FrameView {
    let m = ms[a.message];
    FrameView {
        ch: CH_RELIABLE_ORDERED,
        msg_id: m.msg_id,
        body: if is_split(m) {
            fragment::fragment_bytes(
                m.group,
                seq_of(start(ms, a.message)),
                a.no as u8,
                count(m) as u8,
                pieces_of(m)[a.no],
            )
        } else {
            m.payload
        },
    }
}

/// The session after frames arrived, and what it delivered.
pub open spec fn after_pieces(s: SessionData, ms: Seq<Posted>, arrivals: Seq<PieceArrival>) -> (
    SessionData,
    Seq<Event>,
)
    decreases arrivals.len(),
{
    if arrivals.len() == 0 {
        (s, Seq::empty())
    } else {
        let (t, events) = after_pieces(s, ms, arrivals.drop_last());
        let a = arrivals.last();
        let (u, more) = peer::ch2_received(t, a.header, piece_frame(ms, a), a.now);
        (u, events + more)
    }
}

/// Whether piece `j` of message `i` has arrived.
pub open spec fn has_come(arrivals: Seq<PieceArrival>, i: int, j: int) -> bool {
    exists|k: int|
        0 <= k < arrivals.len() && (#[trigger] arrivals[k]).message == i && arrivals[k].no == j
}

/// Whether every piece of message `i` has arrived.
pub open spec fn is_complete(ms: Seq<Posted>, arrivals: Seq<PieceArrival>, i: int) -> bool {
    forall|j: int| 0 <= j < count(ms[i]) ==> #[trigger] has_come(arrivals, i, j)
}

/// Whether `n` is the first message that is not complete.
pub open spec fn is_first_incomplete(ms: Seq<Posted>, arrivals: Seq<PieceArrival>, n: int) -> bool {
    &&& 0 <= n <= ms.len()
    &&& n < ms.len() ==> !is_complete(ms, arrivals, n)
    &&& forall|i: int| 0 <= i < n ==> #[trigger] is_complete(ms, arrivals, i)
}

/// Whether a position is near enough to what was delivered: at most as far ahead as packets may
/// wait for acknowledgements, and at most as far back as delivered numbers are remembered.
pub open spec fn is_close(p: int, d: int) -> bool {
    d - DELIVERED_CAP <= p < d + crate::protocol::types::RETRANSMIT_QUEUE_CAP
}

/// Whether every frame is close to what was delivered when it arrives.
pub open spec fn stay_close(ms: Seq<Posted>, arrivals: Seq<PieceArrival>) -> bool {
    forall|k: int, n: int|
        0 <= k < arrivals.len() && #[trigger] is_first_incomplete(ms, arrivals.take(k), n)
            ==> is_close(position(ms, #[trigger] arrivals[k]), start(ms, n))
}

/// How many of the first `i` messages are split.
pub open spec fn splits_before(ms: Seq<Posted>, i: int) -> int
    decreases i,
{
    if i <= 0 {
        0
    } else if is_split(ms[i - 1]) {
        splits_before(ms, i - 1) + 1
    } else {
        splits_before(ms, i - 1)
    }
}

/// Whether messages can be sent: none looks like a placeholder, none has too many fragments, and
/// a group comes back only after all the others that 16 bits can number, as it does for a sender
/// that counts its groups.
pub open spec fn can_be_posted(ms: Seq<Posted>) -> bool {
    &&& forall|i: int|
        0 <= i < ms.len() ==> !((#[trigger] ms[i]).msg_id == PLACEHOLDER && ms[i].payload.len()
            == 0)
    &&& forall|i: int| 0 <= i < ms.len() ==> count(#[trigger] ms[i]) <= MAX_FRAGMENTS
    &&& forall|i: int, j: int|
        0 <= i < j < ms.len() && is_split(#[trigger] ms[i]) && is_split(#[trigger] ms[j])
            && splits_before(ms, j) - splits_before(ms, i) < 0x1_0000 ==> ms[i].group
            != ms[j].group
}

/// The events that deliver the first `n` messages.
pub open spec fn posted_deliveries(sess_id: u64, ms: Seq<Posted>, n: int) -> Seq<Event> {
    Seq::new(
        n as nat,
        |i: int|
            Event::Data {
                sess_id,
                ch: CH_RELIABLE_ORDERED,
                msg_id: ms[i].msg_id,
                payload: ms[i].payload,
            },
    )
}

/// A message takes at least one number.
proof fn count_positive(m: Posted)
    ensures
        count(m) >= 1,
{
}

/// Messages start one behind the other.
proof fn start_grows(ms: Seq<Posted>, i: int, j: int)
    requires
        0 <= i < j <= ms.len(),
    ensures
        start(ms, i) + count(ms[i]) <= start(ms, j),
        start(ms, i) < start(ms, j),
        0 <= start(ms, i),
    decreases j,
{
    count_positive(ms[i]);
    start_nonneg(ms, i);
    if i < j - 1 {
        start_grows(ms, i, j - 1);
        count_positive(ms[j - 1]);
    }
}

/// No message starts below zero.
proof fn start_nonneg(ms: Seq<Posted>, i: int)
    ensures
        0 <= start(ms, i),
    decreases i,
{
    if i > 0 {
        start_nonneg(ms, i - 1);
        count_positive(ms[i - 1]);
    }
}

/// A position belongs to one piece of one message.
proof fn position_is_unique(ms: Seq<Posted>, i: int, j: int, k: int, l: int)
    requires
        0 <= i < ms.len(),
        0 <= k < ms.len(),
        0 <= j < count(ms[i]),
        0 <= l < count(ms[k]),
        start(ms, i) + j == start(ms, k) + l,
    ensures
        i == k,
        j == l,
{
    if i < k {
        start_grows(ms, i, k);
    } else if k < i {
        start_grows(ms, k, i);
    }
}

/// The entries of one message: the payload, then placeholders.
spec fn entries_of(m: Posted) -> Seq<Sent> {
    Seq::new(
        count(m) as nat,
        |j: int|
            if j == 0 {
                (m.msg_id, m.payload)
            } else {
                (PLACEHOLDER, Seq::empty())
            },
    )
}

/// The entries of messages, one behind the other.
spec fn entries(ms: Seq<Posted>) -> Seq<Sent>
    decreases ms.len(),
{
    if ms.len() == 0 {
        Seq::empty()
    } else {
        entries(ms.drop_last()) + entries_of(ms.last())
    }
}

/// Where messages start does not depend on what follows.
proof fn start_of_init(ms: Seq<Posted>, i: int)
    requires
        0 <= i < ms.len(),
    ensures
        start(ms.drop_last(), i) == start(ms, i),
    decreases i,
{
    if i > 0 {
        start_of_init(ms, i - 1);
    }
}

/// How many entries there are.
proof fn entries_len(ms: Seq<Posted>)
    ensures
        entries(ms).len() == start(ms, ms.len() as int),
    decreases ms.len(),
{
    if ms.len() > 0 {
        entries_len(ms.drop_last());
        start_of_init(ms, ms.len() - 1);
        count_positive(ms.last());
    }
}

/// The entry at a position.
proof fn entry_at(ms: Seq<Posted>, i: int, j: int)
    requires
        0 <= i < ms.len(),
        0 <= j < count(ms[i]),
    ensures
        0 <= start(ms, i) + j < entries(ms).len(),
        entries(ms)[start(ms, i) + j] == entries_of(ms[i])[j],
    decreases ms.len(),
{
    let init = ms.drop_last();
    entries_len(ms);
    entries_len(init);
    start_nonneg(ms, i);
    start_of_init(ms, i);
    if i < init.len() {
        assert(init[i] == ms[i]);
        entry_at(init, i, j);
    } else {
        start_of_init(ms, ms.len() - 1);
    }
}

/// What complete messages say.
proof fn told_messages(sess_id: u64, ms: Seq<Posted>, n: int)
    requires
        can_be_posted(ms),
        0 <= n <= ms.len(),
    ensures
        told(sess_id, entries(ms), 0, start(ms, n)) == posted_deliveries(sess_id, ms, n),
    decreases n,
{
    if n > 0 {
        told_messages(sess_id, ms, n - 1);
        start_nonneg(ms, n - 1);
        count_positive(ms[n - 1]);
        told_in_parts(sess_id, entries(ms), 0, start(ms, n - 1), start(ms, n));
        told_message(sess_id, ms, n - 1, count(ms[n - 1]));
        assert(posted_deliveries(sess_id, ms, n) =~= posted_deliveries(sess_id, ms, n - 1)
            + told_by(sess_id, (ms[n - 1].msg_id, ms[n - 1].payload)));
    } else {
        assert(told(sess_id, entries(ms), 0, start(ms, n)) =~= posted_deliveries(sess_id, ms, n));
    }
}

/// What the first entries of a message say.
proof fn told_message(sess_id: u64, ms: Seq<Posted>, i: int, c: int)
    requires
        0 <= i < ms.len(),
        1 <= c <= count(ms[i]),
    ensures
        told(sess_id, entries(ms), start(ms, i), start(ms, i) + c) == told_by(
            sess_id,
            (ms[i].msg_id, ms[i].payload),
        ),
    decreases c,
{
    let d = start(ms, i);
    entry_at(ms, i, c - 1);
    if c > 1 {
        told_message(sess_id, ms, i, c - 1);
        assert(told(sess_id, entries(ms), d, d + c) =~= told(sess_id, entries(ms), d, d + c - 1));
    } else {
        assert(told(sess_id, entries(ms), d, d) =~= Seq::<Event>::empty());
        assert(told(sess_id, entries(ms), d, d + 1) =~= told_by(
            sess_id,
            (ms[i].msg_id, ms[i].payload),
        ));
    }
}

/// Whether position `p` belongs to a complete message that is not before message `n`.
spec fn is_ready(ms: Seq<Posted>, arrivals: Seq<PieceArrival>, n: int, p: int) -> bool {
    exists|i: int, j: int| #[trigger]
        is_piece(ms, n, i, j) && is_complete(ms, arrivals, i) && p == start(ms, i) + j
}

/// Whether there is a piece `j` of a message `i` that is not before message `n`.
spec fn is_piece(ms: Seq<Posted>, n: int, i: int, j: int) -> bool {
    n <= i < ms.len() && 0 <= i && 0 <= j < count(ms[i])
}

/// The positions of complete messages that are not before message `n`.
spec fn ready(ms: Seq<Posted>, arrivals: Seq<PieceArrival>, n: int) -> Set<int> {
    Set::new(|p: int| is_ready(ms, arrivals, n, p))
}

/// The first message that is not complete, from message `n` on.
proof fn find_incomplete(ms: Seq<Posted>, arrivals: Seq<PieceArrival>, n: int) -> (m: int)
    requires
        0 <= n <= ms.len(),
        forall|i: int| 0 <= i < n ==> #[trigger] is_complete(ms, arrivals, i),
    ensures
        n <= m,
        is_first_incomplete(ms, arrivals, m),
    decreases ms.len() - n,
{
    if n < ms.len() && is_complete(ms, arrivals, n) {
        find_incomplete(ms, arrivals, n + 1)
    } else {
        n
    }
}

/// Once what is complete is among the early entries, delivery reaches the first message that is
/// not complete.
proof fn settle(u: SessionData, ms: Seq<Posted>, arrivals: Seq<PieceArrival>, n: int) -> (m: int)
    requires
        0 <= n <= ms.len(),
        forall|i: int| 0 <= i < n ==> #[trigger] is_complete(ms, arrivals, i),
        keeps(u, entries(ms), start(ms, n), ready(ms, arrivals, n)),
    ensures
        n <= m,
        is_first_incomplete(ms, arrivals, m),
        ({
            let (t, events) = peer::delivered(u);
            &&& keeps(t, entries(ms), start(ms, m), ready(ms, arrivals, m))
            &&& events == told(u.sess_id, entries(ms), start(ms, n), start(ms, m))
        }),
{
    let d = start(ms, n);
    let early = ready(ms, arrivals, n);
    keeps_bounds(u, entries(ms), d, early);
    let e = keeps_delivered(u, entries(ms), d, early, 0x1_0000);
    if e == d + 0x1_0000 {
        assert(early.contains(d + 0x8000));
    }
    let m = find_incomplete(ms, arrivals, n);
    let last = start(ms, m);
    entries_len(ms);
    if n < m {
        start_grows(ms, n, m);
    }
    // Everything before `last` is ready.
    if e < last {
        let (i, j) = piece_at(ms, n, m, e);
        assert(is_piece(ms, n, i, j));
        assert(is_complete(ms, arrivals, i));
        assert(early.contains(e));
    }
    // What stands at `last` is not.
    if last < e {
        assert(early.contains(last));
        assert(is_ready(ms, arrivals, n, last));
        let (i, j) = choose|i: int, j: int| #[trigger]
            is_piece(ms, n, i, j) && is_complete(ms, arrivals, i) && last == start(ms, i) + j;
        assert(is_piece(ms, n, i, j));
        if m < ms.len() {
            count_positive(ms[m]);
            position_is_unique(ms, i, j, m, 0);
        } else {
            entry_at(ms, i, j);
        }
    }
    assert(early.difference(Set::new(|p: int| p < e)) =~= ready(ms, arrivals, m)) by {
        assert forall|p: int| early.contains(p) && p >= e implies #[trigger] is_ready(
            ms,
            arrivals,
            m,
            p,
        ) by {
            assert(is_ready(ms, arrivals, n, p));
            let (i, j) = choose|i: int, j: int| #[trigger]
                is_piece(ms, n, i, j) && is_complete(ms, arrivals, i) && p == start(ms, i) + j;
            assert(is_piece(ms, n, i, j));
            if i < m {
                start_grows(ms, i, m);
            }
            assert(is_piece(ms, m, i, j));
        }
        assert forall|p: int| #[trigger] is_ready(ms, arrivals, m, p) implies early.contains(p) && p
            >= e by {
            let (i, j) = choose|i: int, j: int| #[trigger]
                is_piece(ms, m, i, j) && is_complete(ms, arrivals, i) && p == start(ms, i) + j;
            assert(is_piece(ms, n, i, j));
            assert(is_ready(ms, arrivals, n, p));
            if m < i {
                start_grows(ms, m, i);
            }
        }
    }
    m
}

/// The piece that stands at a position.
proof fn piece_at(ms: Seq<Posted>, n: int, m: int, p: int) -> (r: (int, int))
    requires
        0 <= n < m <= ms.len(),
        start(ms, n) <= p < start(ms, m),
    ensures
        n <= r.0 < m,
        0 <= r.1 < count(ms[r.0]),
        p == start(ms, r.0) + r.1,
    decreases m - n,
{
    if p < start(ms, n + 1) {
        (n, p - start(ms, n))
    } else {
        piece_at(ms, n + 1, m, p)
    }
}

/// Numbers that differ and lie in a range are no more than the range has.
proof fn few_numbers(s: Seq<int>, lo: int, hi: int)
    requires
        s.no_duplicates(),
        lo <= hi,
        forall|i: int| 0 <= i < s.len() ==> lo <= #[trigger] s[i] < hi,
    ensures
        s.len() <= hi - lo,
{
    s.unique_seq_to_set();
    vstd::set_lib::lemma_int_range(lo, hi);
    assert(s.to_set().subset_of(vstd::set_lib::set_int_range(lo, hi)));
    vstd::set_lib::lemma_len_subset(s.to_set(), vstd::set_lib::set_int_range(lo, hi));
}

/// What there is of the pieces of message `i`.
spec fn parts_of(ms: Seq<Posted>, arrivals: Seq<PieceArrival>, i: int) -> Seq<Option<Seq<u8>>> {
    Seq::new(
        count(ms[i]) as nat,
        |j: int|
            if has_come(arrivals, i, j) {
                Some(pieces_of(ms[i])[j])
            } else {
                None
            },
    )
}

/// Whether some piece of message `i` has arrived.
spec fn has_begun(ms: Seq<Posted>, arrivals: Seq<PieceArrival>, i: int) -> bool {
    exists|j: int| 0 <= j < count(ms[i]) && #[trigger] has_come(arrivals, i, j)
}

/// The groups that are remembered, if messages were completed in the order `done`.
spec fn groups_of(ms: Seq<Posted>, done: Seq<int>) -> Seq<u16> {
    let n = if done.len() < COMPLETED_CAP {
        done.len() as int
    } else {
        COMPLETED_CAP as int
    };
    Seq::new(n as nat, |j: int| ms[done[done.len() - n + j]].group)
}

/// What the assembler remembers when the messages in `done` were completed, in that order, and
/// the first `n` messages were delivered.
#[verifier::opaque]
spec fn remembers(
    completed: Seq<u16>,
    ms: Seq<Posted>,
    arrivals: Seq<PieceArrival>,
    n: int,
    done: Seq<int>,
) -> bool {
    &&& completed == groups_of(ms, done)
    &&& done.no_duplicates()
    &&& forall|x: int|
        0 <= x < done.len() ==> 0 <= #[trigger] done[x] < ms.len() && is_split(ms[done[x]])
            && is_complete(ms, arrivals, done[x]) && start(ms, done[x]) < start(ms, n)
            + crate::protocol::types::RETRANSMIT_QUEUE_CAP
    &&& forall|i: int|
        0 <= i < ms.len() && is_split(#[trigger] ms[i]) && is_complete(ms, arrivals, i)
            ==> done.contains(i)
    &&& forall|x: int, y: int|
        0 <= x < y < done.len() ==> start(ms, #[trigger] done[x]) < start(ms, #[trigger] done[y])
            + crate::protocol::types::RETRANSMIT_QUEUE_CAP
}

/// What the assembler holds of incomplete messages: the pieces that have come of each of them, and
/// nothing else.
#[verifier::opaque]
spec fn collects(
    pending: Map<u16, Group>,
    ms: Seq<Posted>,
    arrivals: Seq<PieceArrival>,
    n: int,
) -> bool {
    &&& forall|i: int| #[trigger]
        is_open(ms, arrivals, i) ==> {
            &&& start(ms, i) < start(ms, n) + crate::protocol::types::RETRANSMIT_QUEUE_CAP
            &&& pending.contains_key(ms[i].group)
            &&& pending[ms[i].group].first_seq == seq_of(start(ms, i))
            &&& pending[ms[i].group].parts == parts_of(ms, arrivals, i)
        }
    &&& forall|g: u16| #[trigger]
        pending.contains_key(g) ==> exists|i: int| #[trigger]
            is_open(ms, arrivals, i) && ms[i].group == g
}

/// What the assembler holds when the messages in `done` were completed, in that order, and the
/// first `n` messages were delivered.
spec fn assembles(
    a: Assembly,
    ms: Seq<Posted>,
    arrivals: Seq<PieceArrival>,
    n: int,
    done: Seq<int>,
) -> bool {
    remembers(a.completed, ms, arrivals, n, done) && collects(a.pending, ms, arrivals, n)
}

/// Whether message `i` is split, and some of its pieces have arrived and some have not.
spec fn is_open(ms: Seq<Posted>, arrivals: Seq<PieceArrival>, i: int) -> bool {
    &&& 0 <= i < ms.len()
    &&& is_split(ms[i])
    &&& has_begun(ms, arrivals, i)
    &&& !is_complete(ms, arrivals, i)
}

/// The split messages from message `i` on, up to message `j`.
spec fn split_ones(ms: Seq<Posted>, i: int, j: int) -> Seq<int>
    decreases j - i,
{
    if j <= i {
        Seq::empty()
    } else if is_split(ms[j - 1]) {
        split_ones(ms, i, j - 1).push(j - 1)
    } else {
        split_ones(ms, i, j - 1)
    }
}

/// What the split messages in a range are, and how many.
proof fn split_ones_are(ms: Seq<Posted>, i: int, j: int)
    requires
        0 <= i <= j <= ms.len(),
    ensures
        split_ones(ms, i, j).len() == splits_before(ms, j) - splits_before(ms, i),
        forall|x: int|
            0 <= x < split_ones(ms, i, j).len() ==> i <= #[trigger] split_ones(ms, i, j)[x] < j
                && is_split(ms[split_ones(ms, i, j)[x]]),
        forall|x: int, y: int|
            0 <= x < y < split_ones(ms, i, j).len() ==> #[trigger] split_ones(ms, i, j)[x]
                < #[trigger] split_ones(ms, i, j)[y],
    decreases j - i,
{
    if i < j {
        split_ones_are(ms, i, j - 1);
    }
}

/// There are no more split messages in a range than the range has numbers.
proof fn few_splits(ms: Seq<Posted>, i: int, j: int)
    requires
        0 <= i <= j <= ms.len(),
    ensures
        0 <= splits_before(ms, j) - splits_before(ms, i) <= start(ms, j) - start(ms, i),
    decreases j - i,
{
    if i < j {
        few_splits(ms, i, j - 1);
        count_positive(ms[j - 1]);
    }
}

/// Two messages that start close to each other have different groups.
proof fn close_groups_differ(ms: Seq<Posted>, i: int, k: int)
    requires
        can_be_posted(ms),
        0 <= i < ms.len(),
        0 <= k < ms.len(),
        i != k,
        is_split(ms[i]),
        is_split(ms[k]),
        start(ms, i) - 0x1000 < start(ms, k) < start(ms, i) + 0x1000,
    ensures
        ms[i].group != ms[k].group,
{
    if i < k {
        few_splits(ms, i, k);
        assert(is_split(ms[i]) && is_split(ms[k]));
    } else {
        few_splits(ms, k, i);
        assert(is_split(ms[k]) && is_split(ms[i]));
    }
}

/// A message that was completed and not delivered is still remembered.
proof fn waiting_group_is_remembered(
    a: Assembly,
    ms: Seq<Posted>,
    arrivals: Seq<PieceArrival>,
    n: int,
    done: Seq<int>,
    i: int,
)
    requires
        assembles(a, ms, arrivals, n, done),
        0 <= n <= i < ms.len(),
        is_split(ms[i]),
        is_complete(ms, arrivals, i),
    ensures
        a.completed.contains(ms[i].group),
{
    reveal(remembers);
    let x = choose|x: int| 0 <= x < done.len() && done[x] == i;
    let cap = crate::protocol::types::RETRANSMIT_QUEUE_CAP as int;
    let len = done.len() as int;
    let after = done.skip(x + 1).map_values(|k: int| start(ms, k));
    assert forall|y: int, z: int| 0 <= y < z < after.len() implies after[y] != after[z] by {
        let k = done[x + 1 + y];
        let l = done[x + 1 + z];
        assert(k != l);
        if k < l {
            start_grows(ms, k, l);
        } else {
            start_grows(ms, l, k);
        }
    }
    start_at_most(ms, n, i);
    assert forall|y: int| 0 <= y < after.len() implies start(ms, i) - cap < #[trigger] after[y]
        < start(ms, i) + cap by {
        assert(after[y] == start(ms, done[x + 1 + y]));
        assert(done[x] == i);
    }
    few_numbers(after, start(ms, i) - cap + 1, start(ms, i) + cap);
    let m = groups_of(ms, done).len() as int;
    let y = x - (len - m);
    assert(0 <= y < m);
    assert(a.completed[y] == ms[i].group);
}

/// Where a message stands among those that were completed.
spec fn place(done: Seq<int>, k: int) -> int {
    choose|y: int| 0 <= y < done.len() && done[y] == k
}

/// Between a message whose group is remembered and the first one that is not complete there are
/// few split messages: those completed after it are few, and those completed before it are close.
proof fn few_splits_since(
    a: Assembly,
    ms: Seq<Posted>,
    arrivals: Seq<PieceArrival>,
    n: int,
    done: Seq<int>,
    x: int,
)
    requires
        assembles(a, ms, arrivals, n, done),
        0 <= n <= ms.len(),
        forall|l: int| 0 <= l < n ==> #[trigger] is_complete(ms, arrivals, l),
        0 <= x < done.len(),
        done.len() - x <= COMPLETED_CAP,
        0 <= done[x] < n,
    ensures
        splits_before(ms, n) - splits_before(ms, done[x]) <= 0x100,
{
    reveal(remembers);
    let k = done[x];
    let l = split_ones(ms, k, n);
    split_ones_are(ms, k, n);
    let marks = l.map_values(
        |q: int|
            if place(done, q) >= x {
                place(done, q) - x
            } else {
                0x80 + start(ms, q) - start(ms, k)
            },
    );
    assert forall|y: int| 0 <= y < l.len() implies 0 <= #[trigger] marks[y] < 0xC0 && 0 <= place(
        done,
        l[y],
    ) < done.len() && done[place(done, l[y])] == l[y] && (place(done, l[y]) >= x <==> marks[y]
        < 0x80) by {
        let q = l[y];
        assert(is_split(ms[q]) && is_complete(ms, arrivals, q));
        assert(done.contains(q));
        start_at_most(ms, k, q);
        if place(done, q) < x {
            assert(start(ms, done[place(done, q)]) < start(ms, done[x])
                + crate::protocol::types::RETRANSMIT_QUEUE_CAP);
        }
    }
    assert forall|y: int, z: int| 0 <= y < z < marks.len() implies marks[y] != marks[z] by {
        assert(l[y] < l[z]);
        start_grows(ms, l[y], l[z]);
        assert(marks[y] < 0x80 <==> place(done, l[y]) >= x);
        assert(marks[z] < 0x80 <==> place(done, l[z]) >= x);
    }
    few_numbers(marks, 0, 0xC0);
}

/// The group of a message that is not complete is not among those that are remembered.
proof fn open_group_is_not_remembered(
    a: Assembly,
    ms: Seq<Posted>,
    arrivals: Seq<PieceArrival>,
    n: int,
    done: Seq<int>,
    i: int,
)
    requires
        assembles(a, ms, arrivals, n, done),
        can_be_posted(ms),
        0 <= n <= i < ms.len(),
        forall|l: int| 0 <= l < n ==> #[trigger] is_complete(ms, arrivals, l),
        start(ms, i) < start(ms, n) + crate::protocol::types::RETRANSMIT_QUEUE_CAP,
        is_split(ms[i]),
        !is_complete(ms, arrivals, i),
    ensures
        !a.completed.contains(ms[i].group),
{
    if a.completed.contains(ms[i].group) {
        let y = choose|y: int| 0 <= y < a.completed.len() && a.completed[y] == ms[i].group;
        let x = done.len() - groups_of(ms, done).len() + y;
        let k = done[x];
        assert(a.completed == groups_of(ms, done) && 0 <= k < ms.len() && is_split(ms[k])
            && is_complete(ms, arrivals, k) && start(ms, k) < start(ms, n)
            + crate::protocol::types::RETRANSMIT_QUEUE_CAP) by {
            reveal(remembers);
        }
        start_at_most(ms, n, i);
        if k >= n {
            start_at_most(ms, n, k);
            close_groups_differ(ms, i, k);
        } else {
            few_splits_since(a, ms, arrivals, n, done, x);
            few_splits(ms, n, i);
            assert(is_split(ms[k]) && is_split(ms[i]));
        }
    }
}

/// Which pieces have arrived after one more frame.
proof fn come_after(arrivals: Seq<PieceArrival>, a: PieceArrival)
    ensures
        forall|i: int, j: int| #[trigger]
            has_come(arrivals.push(a), i, j) == (has_come(arrivals, i, j) || (i == a.message && j
                == a.no)),
{
    let now = arrivals.push(a);
    assert forall|i: int, j: int| #[trigger] has_come(now, i, j) == (has_come(arrivals, i, j) || (i
        == a.message && j == a.no)) by {
        if has_come(arrivals, i, j) {
            let k = choose|k: int|
                0 <= k < arrivals.len() && (#[trigger] arrivals[k]).message == i && arrivals[k].no
                    == j;
            assert(now[k].message == i && now[k].no == j);
        }
        if i == a.message && j == a.no {
            assert(now[arrivals.len() as int].message == i);
        }
        if has_come(now, i, j) && !(i == a.message && j == a.no) {
            let k = choose|k: int|
                0 <= k < now.len() && (#[trigger] now[k]).message == i && now[k].no == j;
            assert(arrivals[k].message == i && arrivals[k].no == j);
        }
    }
}

/// A frame completes at most its own message, and undoes none.
proof fn complete_after(ms: Seq<Posted>, arrivals: Seq<PieceArrival>, a: PieceArrival)
    ensures
        forall|i: int| #[trigger]
            is_complete(ms, arrivals, i) ==> is_complete(ms, arrivals.push(a), i),
        forall|i: int|
            i != a.message ==> #[trigger] is_complete(ms, arrivals.push(a), i) == is_complete(
                ms,
                arrivals,
                i,
            ),
{
    come_after(arrivals, a);
    let now = arrivals.push(a);
    assert forall|i: int| #[trigger] is_complete(ms, arrivals, i) implies is_complete(ms, now, i) by {
        assert forall|j: int| 0 <= j < count(ms[i]) implies #[trigger] has_come(now, i, j) by {
            assert(has_come(arrivals, i, j));
        }
    }
    assert forall|i: int| i != a.message implies #[trigger] is_complete(ms, now, i) == is_complete(
        ms,
        arrivals,
        i,
    ) by {
        if is_complete(ms, now, i) {
            assert forall|j: int| 0 <= j < count(ms[i]) implies #[trigger] has_come(arrivals, i, j) by {
                assert(has_come(now, i, j));
            }
        }
    }
}

/// A position ahead has a number that was not delivered lately.
proof fn number_is_new(s: SessionData, es: Seq<Sent>, d: int, early: Set<int>, p: int)
    requires
        keeps(s, es, d, early),
        d <= p < d + 0x7FFF,
    ensures
        !s.delivered_seqs.contains(seq_of(p)),
{
    reveal(keeps);
    if s.delivered_seqs.contains(seq_of(p)) {
        let n = numbers_before(d).len() as int;
        let j = choose|j: int|
            0 <= j < s.delivered_seqs.len() && s.delivered_seqs[j] == seq_of(p);
        near_numbers_differ(d - n + j, p);
    }
}

/// A position not far back has a number that was delivered lately.
proof fn number_is_known(s: SessionData, es: Seq<Sent>, d: int, early: Set<int>, p: int)
    requires
        keeps(s, es, d, early),
        d - DELIVERED_CAP <= p < d,
        0 <= p,
    ensures
        s.delivered_seqs.contains(seq_of(p)),
{
    reveal(keeps);
    let n = numbers_before(d).len() as int;
    assert(s.delivered_seqs[p - (d - n)] == seq_of(p));
}

/// What channel 2 keeps in order does not depend on its fragments.
proof fn keeps_apart_from_fragments(
    s: SessionData,
    t: SessionData,
    es: Seq<Sent>,
    d: int,
    early: Set<int>,
)
    requires
        keeps(s, es, d, early),
        t == (SessionData { assembly: t.assembly, ..s }),
    ensures
        keeps(t, es, d, early),
{
    reveal(keeps);
}

/// A group of fragments that was completed is put among the early entries.
proof fn group_is_kept(
    s: SessionData,
    es: Seq<Sent>,
    d: int,
    early: Set<int>,
    first: int,
    n: int,
    msg_id: u16,
    payload: Seq<u8>,
)
    requires
        keeps(s, es, d, early),
        1 <= n <= MAX_FRAGMENTS,
        d <= first,
        first + n <= d + 0x7FFF,
        first + n <= es.len(),
        es[first] == (msg_id, payload),
        forall|j: int|
            1 <= j < n ==> #[trigger] es[first + j] == (PLACEHOLDER, Seq::<u8>::empty()),
    ensures
        keeps(
            SessionData {
                reorder: peer::with_group(s.reorder, seq_of(first), n as u8, msg_id, payload),
                ..s
            },
            es,
            d,
            early.union(Set::new(|p: int| first <= p < first + n)),
        ),
{
    reveal(keeps);
    let u = SessionData {
        reorder: peer::with_group(s.reorder, seq_of(first), n as u8, msg_id, payload),
        ..s
    };
    let more = early.union(Set::new(|p: int| first <= p < first + n));
    assert forall|p: int| #[trigger] more.contains(p) implies d <= p < d + 0x8000 && p < es.len()
        && u.reorder.contains_key(seq_of(p)) && u.reorder[seq_of(p)] == es[p] by {
        if first <= p < first + n {
            distance_of_numbers(first, p);
            if p > first {
                near_numbers_differ(first, p);
                assert(es[first + (p - first)] == (PLACEHOLDER, Seq::<u8>::empty()));
            }
        } else {
            assert(early.contains(p));
            if p < first {
                distance_of_numbers(p, first);
                near_numbers_differ(p, first);
                serial::distance_swapped(seq_of(first), seq_of(p));
            } else {
                distance_of_numbers(first, p);
                near_numbers_differ(first, p);
            }
        }
    }
    assert forall|k: u16| #[trigger] u.reorder.contains_key(k) implies more.contains(
        d + serial::seq_distance(k, seq_of(d)),
    ) by {
        let j = serial::seq_distance(k, seq_of(first));
        serial::plus_of_distance(seq_of(first), k);
        if k == seq_of(first) || j < n {
            serial::seq_plus_adds(0, first, j);
            assert(k == seq_of(first + j));
            distance_of_numbers(d, first + j);
        } else {
            assert(s.reorder.contains_key(k));
        }
    }
}

/// What is complete, begun and there depends only on which pieces have come.
proof fn message_is_same(
    ms: Seq<Posted>,
    before: Seq<PieceArrival>,
    now: Seq<PieceArrival>,
    i: int,
)
    requires
        forall|j: int| #[trigger] has_come(now, i, j) == has_come(before, i, j),
    ensures
        is_complete(ms, now, i) == is_complete(ms, before, i),
        has_begun(ms, now, i) == has_begun(ms, before, i),
        parts_of(ms, now, i) == parts_of(ms, before, i),
        is_open(ms, now, i) == is_open(ms, before, i),
{
    assert(parts_of(ms, now, i) =~= parts_of(ms, before, i));
    if is_complete(ms, before, i) {
        assert forall|j: int| 0 <= j < count(ms[i]) implies #[trigger] has_come(now, i, j) by {
            assert(has_come(before, i, j));
        }
    }
    if is_complete(ms, now, i) {
        assert forall|j: int| 0 <= j < count(ms[i]) implies #[trigger] has_come(before, i, j) by {
            assert(has_come(now, i, j));
        }
    }
    if has_begun(ms, before, i) {
        let j = choose|j: int| 0 <= j < count(ms[i]) && #[trigger] has_come(before, i, j);
        assert(has_come(now, i, j));
    }
    if has_begun(ms, now, i) {
        let j = choose|j: int| 0 <= j < count(ms[i]) && #[trigger] has_come(now, i, j);
        assert(has_come(before, i, j));
    }
}

/// The assembler depends only on which pieces of split messages have come.
proof fn assembles_same(
    a: Assembly,
    ms: Seq<Posted>,
    before: Seq<PieceArrival>,
    now: Seq<PieceArrival>,
    n: int,
    done: Seq<int>,
)
    requires
        assembles(a, ms, before, n, done),
        forall|i: int, j: int|
            0 <= i < ms.len() && is_split(ms[i]) ==> #[trigger] has_come(now, i, j) == has_come(
                before,
                i,
                j,
            ),
    ensures
        assembles(a, ms, now, n, done),
{
    assert forall|i: int| 0 <= i < ms.len() && is_split(#[trigger] ms[i]) implies is_complete(
        ms,
        now,
        i,
    ) == is_complete(ms, before, i) && parts_of(ms, now, i) == parts_of(ms, before, i) by {
        message_is_same(ms, before, now, i);
    }
    assert forall|i: int| #[trigger] is_open(ms, now, i) == is_open(ms, before, i) by {
        if 0 <= i < ms.len() && is_split(ms[i]) {
            message_is_same(ms, before, now, i);
        }
    }
    assert(remembers(a.completed, ms, now, n, done)) by {
        reveal(remembers);
    }
    assert(collects(a.pending, ms, now, n)) by {
        reveal(collects);
        assert forall|g: u16| #[trigger] a.pending.contains_key(g) implies exists|i: int| #[trigger]
            is_open(ms, now, i) && ms[i].group == g by {
            let i = choose|i: int| #[trigger] is_open(ms, before, i) && ms[i].group == g;
            assert(is_open(ms, now, i));
        }
    }
}

/// The assembler does not change when messages are delivered.
proof fn assembles_later(
    a: Assembly,
    ms: Seq<Posted>,
    arrivals: Seq<PieceArrival>,
    n: int,
    m: int,
    done: Seq<int>,
)
    requires
        assembles(a, ms, arrivals, n, done),
        0 <= n <= m <= ms.len(),
    ensures
        assembles(a, ms, arrivals, m, done),
{
    start_at_most(ms, n, m);
    assert(remembers(a.completed, ms, arrivals, m, done)) by {
        reveal(remembers);
    }
    assert(collects(a.pending, ms, arrivals, m)) by {
        reveal(collects);
    }
}

/// The other incomplete messages have other groups than message `i`.
proof fn open_groups_differ(
    pending: Map<u16, Group>,
    ms: Seq<Posted>,
    arrivals: Seq<PieceArrival>,
    n: int,
    i: int,
    k: int,
)
    requires
        collects(pending, ms, arrivals, n),
        can_be_posted(ms),
        0 <= n <= i < ms.len(),
        forall|l: int| 0 <= l < n ==> #[trigger] is_complete(ms, arrivals, l),
        start(ms, i) < start(ms, n) + crate::protocol::types::RETRANSMIT_QUEUE_CAP,
        is_split(ms[i]),
        is_open(ms, arrivals, k),
        k != i,
    ensures
        ms[k].group != ms[i].group,
{
    assert(start(ms, k) < start(ms, n) + crate::protocol::types::RETRANSMIT_QUEUE_CAP) by {
        reveal(collects);
    }
    assert(n <= k) by {
        if k < n {
            assert(is_complete(ms, arrivals, k));
        }
    }
    start_at_most(ms, n, i);
    start_at_most(ms, n, k);
    close_groups_differ(ms, i, k);
}

/// What the assembler has of an incomplete message.
proof fn parts_are_there(
    s: Assembly,
    ms: Seq<Posted>,
    arrivals: Seq<PieceArrival>,
    n: int,
    i: int,
)
    requires
        collects(s.pending, ms, arrivals, n),
        can_be_posted(ms),
        0 <= n <= i < ms.len(),
        forall|l: int| 0 <= l < n ==> #[trigger] is_complete(ms, arrivals, l),
        start(ms, i) < start(ms, n) + crate::protocol::types::RETRANSMIT_QUEUE_CAP,
        is_split(ms[i]),
        !is_complete(ms, arrivals, i),
    ensures
        fragment::parts_before(s, ms[i].group, seq_of(start(ms, i)), count(ms[i]) as u8)
            == parts_of(ms, arrivals, i),
{
    let m = ms[i];
    assert(count(m) <= MAX_FRAGMENTS);
    let before = fragment::parts_before(s, m.group, seq_of(start(ms, i)), count(m) as u8);
    reveal(collects);
    if has_begun(ms, arrivals, i) {
        assert(is_open(ms, arrivals, i));
    } else {
        if s.pending.contains_key(m.group) {
            let k = choose|k: int| #[trigger] is_open(ms, arrivals, k) && ms[k].group == m.group;
            open_groups_differ(s.pending, ms, arrivals, n, i, k);
        }
        assert forall|j: int| 0 <= j < count(m) implies !(#[trigger] has_come(arrivals, i, j)) by {}
    }
    assert(before =~= parts_of(ms, arrivals, i));
}

/// The incomplete messages after a piece of message `i`: the others are as they were.
proof fn collects_after(
    pending: Map<u16, Group>,
    ms: Seq<Posted>,
    arrivals: Seq<PieceArrival>,
    n: int,
    a: PieceArrival,
    g: Group,
)
    requires
        collects(pending, ms, arrivals, n),
        can_be_posted(ms),
        brings(a, ms),
        0 <= n <= a.message,
        forall|l: int| 0 <= l < n ==> #[trigger] is_complete(ms, arrivals, l),
        is_close(position(ms, a), start(ms, n)),
        is_split(ms[a.message]),
        g.first_seq == seq_of(start(ms, a.message)),
        g.parts == parts_of(ms, arrivals.push(a), a.message),
    ensures
        is_complete(ms, arrivals.push(a), a.message) ==> collects(
            pending.remove(ms[a.message].group),
            ms,
            arrivals.push(a),
            n,
        ),
        !is_complete(ms, arrivals.push(a), a.message) ==> collects(
            pending.insert(ms[a.message].group, g),
            ms,
            arrivals.push(a),
            n,
        ),
{
    let i = a.message;
    let now = arrivals.push(a);
    let whole = is_complete(ms, now, i);
    let after = if whole {
        pending.remove(ms[i].group)
    } else {
        pending.insert(ms[i].group, g)
    };
    come_after(arrivals, a);
    assert(has_come(now, i, a.no));
    assert(has_begun(ms, now, i));
    assert(is_open(ms, now, i) == !whole);
    assert forall|k: int| k != i implies #[trigger] is_open(ms, now, k) == is_open(
        ms,
        arrivals,
        k,
    ) && parts_of(ms, now, k) == parts_of(ms, arrivals, k) by {
        message_is_same(ms, arrivals, now, k);
    }
    assert forall|k: int| #[trigger] is_open(ms, arrivals, k) && k != i implies ms[k].group
        != ms[i].group by {
        open_groups_differ(pending, ms, arrivals, n, i, k);
    }
    reveal(collects);
    assert forall|k: int| #[trigger] is_open(ms, now, k) implies {
        &&& start(ms, k) < start(ms, n) + crate::protocol::types::RETRANSMIT_QUEUE_CAP
        &&& after.contains_key(ms[k].group)
        &&& after[ms[k].group].first_seq == seq_of(start(ms, k))
        &&& after[ms[k].group].parts == parts_of(ms, now, k)
    } by {
        if k != i {
            assert(is_open(ms, arrivals, k));
        }
    }
    assert forall|h: u16| #[trigger] after.contains_key(h) implies exists|k: int| #[trigger]
        is_open(ms, now, k) && ms[k].group == h by {
        if h == ms[i].group {
            assert(is_open(ms, now, i));
        } else {
            assert(pending.contains_key(h));
            let k = choose|k: int| #[trigger] is_open(ms, arrivals, k) && ms[k].group == h;
            assert(is_open(ms, now, k));
        }
    }
}

/// What is remembered after a piece that completes nothing.
proof fn remembers_same(
    completed: Seq<u16>,
    ms: Seq<Posted>,
    arrivals: Seq<PieceArrival>,
    n: int,
    done: Seq<int>,
    a: PieceArrival,
)
    requires
        remembers(completed, ms, arrivals, n, done),
        !is_complete(ms, arrivals.push(a), a.message),
    ensures
        remembers(completed, ms, arrivals.push(a), n, done),
{
    complete_after(ms, arrivals, a);
    assert forall|k: int| #[trigger] is_complete(ms, arrivals.push(a), k) == is_complete(
        ms,
        arrivals,
        k,
    ) by {}
    reveal(remembers);
}

/// What is remembered after a piece that completes its message.
proof fn remembers_one_more(
    completed: Seq<u16>,
    ms: Seq<Posted>,
    arrivals: Seq<PieceArrival>,
    n: int,
    done: Seq<int>,
    a: PieceArrival,
)
    requires
        remembers(completed, ms, arrivals, n, done),
        brings(a, ms),
        is_split(ms[a.message]),
        !is_complete(ms, arrivals, a.message),
        is_complete(ms, arrivals.push(a), a.message),
        0 <= n <= a.message,
        is_close(position(ms, a), start(ms, n)),
    ensures
        remembers(
            crate::collections::push_capped(
                completed,
                ms[a.message].group,
                COMPLETED_CAP as nat,
            ),
            ms,
            arrivals.push(a),
            n,
            done.push(a.message),
        ),
{
    let i = a.message;
    let now = arrivals.push(a);
    let after = done.push(i);
    let cap = crate::protocol::types::RETRANSMIT_QUEUE_CAP;
    complete_after(ms, arrivals, a);
    reveal(remembers);
    assert(!done.contains(i));
    assert(crate::collections::push_capped(completed, ms[i].group, COMPLETED_CAP as nat)
        =~= groups_of(ms, after));
    start_at_most(ms, n, i);
    assert forall|x: int| 0 <= x < after.len() implies 0 <= #[trigger] after[x] < ms.len()
        && is_split(ms[after[x]]) && is_complete(ms, now, after[x]) && start(ms, after[x])
        < start(ms, n) + cap by {
        if x < done.len() {
            assert(after[x] == done[x]);
        }
    }
    assert forall|k: int|
        0 <= k < ms.len() && is_split(#[trigger] ms[k]) && is_complete(ms, now, k) implies after.contains(
        k,
    ) by {
        if k == i {
            assert(after[done.len() as int] == i);
        } else {
            assert(is_complete(ms, arrivals, k));
            let x = choose|x: int| 0 <= x < done.len() && done[x] == k;
            assert(after[x] == k);
        }
    }
    assert forall|x: int, y: int| 0 <= x < y < after.len() implies start(ms, #[trigger] after[x])
        < start(ms, #[trigger] after[y]) + cap by {
        assert(after[x] == done[x]);
        if y < done.len() {
            assert(after[y] == done[y]);
        }
    }
    assert forall|x: int, y: int| 0 <= x < y < after.len() implies after[x] != after[y] by {
        if y == done.len() {
            assert(done.contains(done[x]));
        }
    }
}

/// A piece of a message that is not complete.
proof fn push_piece(
    s: Assembly,
    ms: Seq<Posted>,
    arrivals: Seq<PieceArrival>,
    n: int,
    done: Seq<int>,
    a: PieceArrival,
) -> (after: Seq<int>)
    requires
        assembles(s, ms, arrivals, n, done),
        can_be_posted(ms),
        brings(a, ms),
        is_split(ms[a.message]),
        !is_complete(ms, arrivals, a.message),
        0 <= n <= a.message,
        forall|l: int| 0 <= l < n ==> #[trigger] is_complete(ms, arrivals, l),
        is_close(position(ms, a), start(ms, n)),
    ensures
        ({
            let m = ms[a.message];
            let first = seq_of(start(ms, a.message));
            let now = arrivals.push(a);
            let (t, out) = fragment::pushed(
                s,
                m.group,
                first,
                a.no as u8,
                count(m) as u8,
                pieces_of(m)[a.no],
                a.now,
            );
            &&& assembles(t, ms, now, n, after)
            &&& out == (if is_complete(ms, now, a.message) {
                Some((first, m.payload))
            } else {
                None
            })
        }),
{
    let i = a.message;
    let m = ms[i];
    let first = seq_of(start(ms, i));
    let now = arrivals.push(a);
    come_after(arrivals, a);
    open_group_is_not_remembered(s, ms, arrivals, n, done, i);
    parts_are_there(s, ms, arrivals, n, i);
    assert(count(m) <= MAX_FRAGMENTS);
    let before = parts_of(ms, arrivals, i);
    let parts = fragment::with_part(before, a.no as u8, pieces_of(m)[a.no]);
    assert(parts =~= parts_of(ms, now, i));
    collects_after(
        s.pending,
        ms,
        arrivals,
        n,
        a,
        Group { first_seq: first, parts, last_update: a.now },
    );
    if is_complete(ms, now, i) {
        assert forall|j: int| 0 <= j < parts.len() implies #[trigger] parts[j] is Some by {
            assert(has_come(now, i, j));
        }
        assert(parts =~= pieces_of(m).map_values(|p: Seq<u8>| Some(p))) by {
            assert forall|j: int| 0 <= j < parts.len() implies #[trigger] parts[j] == Some(
                pieces_of(m)[j],
            ) by {
                assert(has_come(now, i, j));
            }
        }
        fragment::pieces_join_to_the_payload(m.payload, FRAGMENT_THRESHOLD as nat);
        remembers_one_more(s.completed, ms, arrivals, n, done, a);
        done.push(i)
    } else {
        let j = choose|j: int| 0 <= j < count(m) && !(#[trigger] has_come(now, i, j));
        assert(parts[j] is None);
        remembers_same(s.completed, ms, arrivals, n, done, a);
        done
    }
}

/// A message that is not before another does not start before it.
proof fn start_at_most(ms: Seq<Posted>, n: int, i: int)
    requires
        0 <= n <= i <= ms.len(),
    ensures
        start(ms, n) <= start(ms, i),
{
    if n < i {
        start_grows(ms, n, i);
    }
}

/// What is ready after one more frame: what was, and the message of the frame if it is complete.
proof fn ready_after(
    ms: Seq<Posted>,
    arrivals: Seq<PieceArrival>,
    n: int,
    a: PieceArrival,
)
    requires
        brings(a, ms),
        0 <= n,
    ensures
        ({
            let now = arrivals.push(a);
            let i = a.message;
            let own = Set::new(|p: int| start(ms, i) <= p < start(ms, i) + count(ms[i]));
            &&& is_complete(ms, arrivals, i) || !is_complete(ms, now, i) || i < n ==> ready(
                ms,
                now,
                n,
            ) == ready(ms, arrivals, n)
            &&& is_complete(ms, now, i) && n <= i ==> ready(ms, now, n) == ready(
                ms,
                arrivals,
                n,
            ).union(own)
        }),
{
    let now = arrivals.push(a);
    let i = a.message;
    let own = Set::new(|p: int| start(ms, i) <= p < start(ms, i) + count(ms[i]));
    complete_after(ms, arrivals, a);
    assert forall|p: int| #[trigger] is_ready(ms, arrivals, n, p) implies is_ready(ms, now, n, p) by {
        let (k, j) = choose|k: int, j: int| #[trigger]
            is_piece(ms, n, k, j) && is_complete(ms, arrivals, k) && p == start(ms, k) + j;
        assert(is_piece(ms, n, k, j));
    }
    assert forall|p: int| #[trigger] is_ready(ms, now, n, p) && (is_complete(ms, arrivals, i)
        || !is_complete(ms, now, i) || i < n) implies is_ready(ms, arrivals, n, p) by {
        let (k, j) = choose|k: int, j: int| #[trigger]
            is_piece(ms, n, k, j) && is_complete(ms, now, k) && p == start(ms, k) + j;
        assert(is_piece(ms, n, k, j));
    }
    assert forall|p: int| #[trigger] is_ready(ms, now, n, p) implies is_ready(ms, arrivals, n, p)
        || own.contains(p) by {
        let (k, j) = choose|k: int, j: int| #[trigger]
            is_piece(ms, n, k, j) && is_complete(ms, now, k) && p == start(ms, k) + j;
        assert(is_piece(ms, n, k, j));
    }
    if is_complete(ms, now, i) && n <= i {
        assert forall|p: int| own.contains(p) implies #[trigger] is_ready(ms, now, n, p) by {
            assert(is_piece(ms, n, i, p - start(ms, i)));
        }
        assert(ready(ms, now, n) =~= ready(ms, arrivals, n).union(own));
    }
    if is_complete(ms, arrivals, i) || !is_complete(ms, now, i) || i < n {
        assert(ready(ms, now, n) =~= ready(ms, arrivals, n));
    }
}

/// A whole message, or a piece that is not new: channel 2 does what it does with whole messages.
proof fn whole_step(
    s: SessionData,
    ms: Seq<Posted>,
    arrivals: Seq<PieceArrival>,
    a: PieceArrival,
    n: int,
    done: Seq<int>,
) -> (m: int)
    requires
        keeps(s, entries(ms), start(ms, n), ready(ms, arrivals, n)),
        assembles(s.assembly, ms, arrivals, n, done),
        is_first_incomplete(ms, arrivals, n),
        can_be_posted(ms),
        brings(a, ms),
        !is_split(ms[a.message]),
        is_close(position(ms, a), start(ms, n)),
    ensures
        ({
            let now = arrivals.push(a);
            let (t, events) = peer::ch2_received(s, a.header, piece_frame(ms, a), a.now);
            &&& n <= m
            &&& is_first_incomplete(ms, now, m)
            &&& keeps(t, entries(ms), start(ms, m), ready(ms, now, m))
            &&& assembles(t.assembly, ms, now, m, done)
            &&& events == told(s.sess_id, entries(ms), start(ms, n), start(ms, m))
        }),
{
    let i = a.message;
    let now = arrivals.push(a);
    let d = start(ms, n);
    let p = position(ms, a);
    let es = entries(ms);
    come_after(arrivals, a);
    complete_after(ms, arrivals, a);
    ready_after(ms, arrivals, n, a);
    entry_at(ms, i, 0);
    assert(es[p] == (ms[i].msg_id, ms[i].payload));
    let w = Arrival { index: p, header: a.header, now: a.now };
    assert(frame_of(es, p) =~= piece_frame(ms, a));
    assembles_same(s.assembly, ms, arrivals, now, n, done);
    assert(is_complete(ms, now, i)) by {
        assert forall|j: int| 0 <= j < count(ms[i]) implies #[trigger] has_come(now, i, j) by {}
    }
    if i < n {
        start_grows(ms, i, n);
        old_frame(s, es, d, ready(ms, arrivals, n), w);
        assert(told(s.sess_id, es, d, d) =~= Seq::<Event>::empty());
        assert(is_first_incomplete(ms, now, n)) by {
            if n < ms.len() {
                assert(is_complete(ms, now, n) == is_complete(ms, arrivals, n));
            }
            assert forall|k: int| 0 <= k < n implies #[trigger] is_complete(ms, now, k) by {
                assert(is_complete(ms, arrivals, k));
            }
        }
        n
    } else {
        start_at_most(ms, n, i);
        new_frame(s, es, d, ready(ms, arrivals, n), w);
        let u = SessionData {
            reorder: s.reorder.insert(a.header.seq, (ms[i].msg_id, ms[i].payload)),
            ..s
        };
        assert(ready(ms, arrivals, n).insert(p) =~= ready(ms, now, n));
        assert forall|k: int| 0 <= k < n implies #[trigger] is_complete(ms, now, k) by {
            assert(is_complete(ms, arrivals, k));
        }
        let m = settle(u, ms, now, n);
        peer::delivery_keeps_the_rest(u, 0x1_0000);
        assembles_later(s.assembly, ms, now, n, m, done);
        m
    }
}

/// A fragment.
proof fn fragment_step(
    s: SessionData,
    ms: Seq<Posted>,
    arrivals: Seq<PieceArrival>,
    a: PieceArrival,
    n: int,
    done: Seq<int>,
) -> (r: (int, Seq<int>))
    requires
        keeps(s, entries(ms), start(ms, n), ready(ms, arrivals, n)),
        assembles(s.assembly, ms, arrivals, n, done),
        is_first_incomplete(ms, arrivals, n),
        can_be_posted(ms),
        brings(a, ms),
        is_split(ms[a.message]),
        is_close(position(ms, a), start(ms, n)),
    ensures
        ({
            let now = arrivals.push(a);
            let (t, events) = peer::ch2_received(s, a.header, piece_frame(ms, a), a.now);
            let m = r.0;
            &&& n <= m
            &&& is_first_incomplete(ms, now, m)
            &&& keeps(t, entries(ms), start(ms, m), ready(ms, now, m))
            &&& assembles(t.assembly, ms, now, m, r.1)
            &&& events == told(s.sess_id, entries(ms), start(ms, n), start(ms, m))
        }),
{
    let i = a.message;
    let m = ms[i];
    let now = arrivals.push(a);
    let d = start(ms, n);
    let p = position(ms, a);
    let es = entries(ms);
    let early = ready(ms, arrivals, n);
    come_after(arrivals, a);
    complete_after(ms, arrivals, a);
    ready_after(ms, arrivals, n, a);
    assert(told(s.sess_id, es, d, d) =~= Seq::<Event>::empty());
    assert forall|k: int| 0 <= k < n implies #[trigger] is_complete(ms, now, k) by {
        assert(is_complete(ms, arrivals, k));
    }
    assert(count(m) <= MAX_FRAGMENTS);
    let x = Fragment {
        group: m.group,
        first_seq: seq_of(start(ms, i)),
        frag_no: a.no as u8,
        total: count(m) as u8,
        chunk: pieces_of(m)[a.no],
    };
    fragment::decode_inverts_encode(x);
    start_nonneg(ms, i);
    if is_complete(ms, arrivals, i) {
        assert(has_come(arrivals, i, a.no));
        assembles_same(s.assembly, ms, arrivals, now, n, done);
        if i < n {
            start_grows(ms, i, n);
            number_is_known(s, es, d, early, p);
        } else {
            start_at_most(ms, n, i);
            number_is_new(s, es, d, early, p);
            waiting_group_is_remembered(s.assembly, ms, arrivals, n, done, i);
        }
        (n, done)
    } else {
        start_at_most(ms, n, i);
        number_is_new(s, es, d, early, p);
        let after = push_piece(s.assembly, ms, arrivals, n, done, a);
        let (b, out) = fragment::pushed(
            s.assembly,
            x.group,
            x.first_seq,
            x.frag_no,
            x.total,
            x.chunk,
            a.now,
        );
        let t = SessionData { assembly: b, ..s };
        keeps_apart_from_fragments(s, t, es, d, early);
        if is_complete(ms, now, i) {
            let first = start(ms, i);
            entry_at(ms, i, 0);
            entry_at(ms, i, count(m) - 1);
            assert forall|j: int| 1 <= j < count(m) implies #[trigger] es[first + j] == (
                PLACEHOLDER,
                Seq::<u8>::empty(),
            ) by {
                entry_at(ms, i, j);
            }
            group_is_kept(t, es, d, early, first, count(m), m.msg_id, m.payload);
            let u = SessionData {
                reorder: peer::with_group(
                    t.reorder,
                    seq_of(first),
                    count(m) as u8,
                    m.msg_id,
                    m.payload,
                ),
                ..t
            };
            let own = Set::new(|q: int| first <= q < first + count(m));
            assert(early.union(own) == ready(ms, now, n));
            let e = settle(u, ms, now, n);
            peer::delivery_keeps_the_rest(u, 0x1_0000);
            assembles_later(b, ms, now, n, e, after);
            (e, after)
        } else {
            assert(is_first_incomplete(ms, now, n)) by {
                if n < ms.len() && n != i {
                    assert(is_complete(ms, now, n) == is_complete(ms, arrivals, n));
                }
            }
            (n, after)
        }
    }
}

/// The state behind `posted_messages_arrive_in_order`.
proof fn pieces_state(s: SessionData, ms: Seq<Posted>, arrivals: Seq<PieceArrival>) -> (r: (
    int,
    Seq<int>,
))
    requires
        is_untouched(s),
        s.assembly == fragment::no_groups(),
        can_be_posted(ms),
        forall|k: int| 0 <= k < arrivals.len() ==> brings(#[trigger] arrivals[k], ms),
        stay_close(ms, arrivals),
    ensures
        is_first_incomplete(ms, arrivals, r.0),
        ({
            let (t, events) = after_pieces(s, ms, arrivals);
            &&& keeps(t, entries(ms), start(ms, r.0), ready(ms, arrivals, r.0))
            &&& assembles(t.assembly, ms, arrivals, r.0, r.1)
            &&& events == told(s.sess_id, entries(ms), 0, start(ms, r.0))
            &&& t.sess_id == s.sess_id
        }),
    decreases arrivals.len(),
{
    if arrivals.len() == 0 {
        assert forall|i: int| 0 <= i < ms.len() implies !(#[trigger] is_complete(ms, arrivals, i)) by {
            count_positive(ms[i]);
            assert(!has_come(arrivals, i, 0));
        }
        assert(ready(ms, arrivals, 0) =~= Set::<int>::empty()) by {
            assert forall|p: int| !(#[trigger] is_ready(ms, arrivals, 0, p)) by {}
        }
        assert(keeps(s, entries(ms), 0, Set::<int>::empty())) by {
            reveal(keeps);
            assert(numbers_before(0) =~= Seq::<u16>::empty());
        }
        assert(remembers(Seq::empty(), ms, arrivals, 0, Seq::empty())) by {
            reveal(remembers);
            assert(groups_of(ms, Seq::<int>::empty()) =~= Seq::<u16>::empty());
        }
        assert(collects(Map::empty(), ms, arrivals, 0)) by {
            reveal(collects);
        }
        assert(told(s.sess_id, entries(ms), 0, 0) =~= Seq::<Event>::empty());
        (0, Seq::empty())
    } else {
        let init = arrivals.drop_last();
        let a = arrivals.last();
        assert(init =~= arrivals.take(arrivals.len() - 1));
        assert forall|k: int| 0 <= k < init.len() implies brings(#[trigger] init[k], ms) by {
            assert(init[k] == arrivals[k]);
        }
        assert(stay_close(ms, init)) by {
            assert forall|k: int, n: int|
                0 <= k < init.len() && #[trigger] is_first_incomplete(ms, init.take(k), n) implies is_close(
                position(ms, #[trigger] init[k]),
                start(ms, n),
            ) by {
                assert(init.take(k) =~= arrivals.take(k));
                assert(init[k] == arrivals[k]);
            }
        }
        let (n, done) = pieces_state(s, ms, init);
        let (t, events) = after_pieces(s, ms, init);
        assert(arrivals[arrivals.len() - 1] == a);
        assert(brings(a, ms));
        assert(is_close(position(ms, arrivals[arrivals.len() - 1]), start(ms, n)));
        peer::ch2_keeps_the_rest(t, a.header, piece_frame(ms, a), a.now);
        assert(init.push(a) =~= arrivals);
        start_nonneg(ms, n);
        if is_split(ms[a.message]) {
            let (m, after) = fragment_step(t, ms, init, a, n, done);
            start_at_most(ms, n, m);
            told_in_parts(s.sess_id, entries(ms), 0, start(ms, n), start(ms, m));
            (m, after)
        } else {
            let m = whole_step(t, ms, init, a, n, done);
            start_at_most(ms, n, m);
            told_in_parts(s.sess_id, entries(ms), 0, start(ms, n), start(ms, m));
            (m, done)
        }
    }
}

/// Long messages travel in fragments, each with a sequence number of its own, between messages
/// that travel whole. The frames may be lost, repeated and reordered. What the session has
/// delivered is always exactly the messages before the first one that is not complete: each of
/// them once and whole, in the order in which they were sent. Frames must stay as close to what
/// was delivered as the sender's queue and the receiver's memory reach. The numbers are those of
/// channel 2: one that is used on another channel is a gap like any other.
pub proof fn posted_messages_arrive_in_order(
    s: SessionData,
    ms: Seq<Posted>,
    arrivals: Seq<PieceArrival>,
    n: int,
)
    requires
        is_untouched(s),
        s.assembly == fragment::no_groups(),
        can_be_posted(ms),
        forall|k: int| 0 <= k < arrivals.len() ==> brings(#[trigger] arrivals[k], ms),
        stay_close(ms, arrivals),
        is_first_incomplete(ms, arrivals, n),
    ensures
        after_pieces(s, ms, arrivals).1 == posted_deliveries(s.sess_id, ms, n),
{
    let (m, _done) = pieces_state(s, ms, arrivals);
    if n < m {
        assert(is_complete(ms, arrivals, n));
    } else if m < n {
        assert(is_complete(ms, arrivals, m));
    }
    told_messages(s.sess_id, ms, n);
}

} // verus!
