//! The sender's queue of packets that wait for an acknowledgement.
//!
//! One queue per reliable channel, with a bounded length; running over ends the connection. An
//! entry keeps the encoded datagram, so sending it again encodes nothing.
//!
//! The peer reports `(ack, ack_bits)`: it has delivered everything up to `ack`, and bit `i` of
//! `ack_bits` says that it also holds packet `ack + 1 + i`. An entry that the report does not
//! cover stays, however old it is: it may really be lost.

use std::collections::VecDeque;
use vstd::prelude::*;

use crate::error::{Error, ProtocolError, Result};
use crate::protocol::types::{Nanos, RETRANSMIT_QUEUE_CAP};
use crate::reliable::serial::{self, seq_ahead, seq_newer};
use crate::wire;

verus! {

/// A packet that waits for its acknowledgement.
#[derive(Debug, Clone)]
pub struct PendingPacket {
    pub seq: u16,
    /// When it was last sent.
    pub sent_at: Nanos,
    /// The encoded datagram.
    pub datagram: Vec<u8>,
}

/// What a waiting packet is.
#[verifier::ext_equal]
pub struct Pending {
    pub seq: u16,
    pub sent_at: Nanos,
    pub datagram: Seq<u8>,
}

impl View for PendingPacket {
    type V = Pending;

    open spec fn view(&self) -> Pending {
        Pending { seq: self.seq, sent_at: self.sent_at, datagram: self.datagram@ }
    }
}

/// The packets of one channel that wait for an acknowledgement, oldest first.
#[derive(Debug, Clone)]
pub struct RetransmitQueue {
    entries: VecDeque<PendingPacket>,
}

impl View for RetransmitQueue {
    type V = Seq<Pending>;

    closed spec fn view(&self) -> Seq<Pending> {
        self.entries@.map_values(|e: PendingPacket| e@)
    }
}

/// Whether bit `i` of `bits` is set.
pub open spec fn has_bit(bits: u32, i: int) -> bool {
    bits & (1u32 << (i as u32)) != 0
}

/// Whether a report covers a packet: it is not after `ack`, or it is one of the 32 after `ack`
/// and its bit is set.
pub open spec fn covers(seq: u16, ack: u16, ack_bits: u32) -> bool {
    let ahead = serial::seq_distance(seq, ack);
    !serial::is_newer(seq, ack) || (1 <= ahead <= 32 && has_bit(ack_bits, ahead - 1))
}

/// How many packets at the front a report covers, without a gap.
pub open spec fn covered_prefix(q: Seq<Pending>, ack: u16, ack_bits: u32) -> nat
    decreases q.len(),
{
    if q.len() > 0 && covers(q[0].seq, ack, ack_bits) {
        1 + covered_prefix(q.skip(1), ack, ack_bits)
    } else {
        0
    }
}

/// The time from `earlier` to `later`; zero if they are the other way round.
pub open spec fn elapsed(later: Nanos, earlier: Nanos) -> Nanos {
    if later >= earlier {
        (later - earlier) as Nanos
    } else {
        0
    }
}

/// Whether a packet has waited for `rto`.
pub open spec fn is_due(e: Pending, now: Nanos, rto: Nanos) -> bool {
    elapsed(now, e.sent_at) >= rto
}

/// The packets that are due, as they go out: sequence number and datagram, in queue order.
pub open spec fn due_packets(q: Seq<Pending>, now: Nanos, rto: Nanos) -> Seq<(u16, Seq<u8>)>
    decreases q.len(),
{
    if q.len() == 0 {
        Seq::empty()
    } else {
        let init = due_packets(q.drop_last(), now, rto);
        if is_due(q.last(), now, rto) {
            init.push((q.last().seq, q.last().datagram))
        } else {
            init
        }
    }
}

/// The queue after the packets that are due went out: their clocks start anew.
pub open spec fn resent(q: Seq<Pending>, now: Nanos, rto: Nanos) -> Seq<Pending> {
    q.map_values(
        |e: Pending|
            if is_due(e, now, rto) {
                Pending { sent_at: now, ..e }
            } else {
                e
            },
    )
}

/// What a list of outgoing packets is.
pub open spec fn packets_view(v: Seq<(u16, Vec<u8>)>) -> Seq<(u16, Seq<u8>)> {
    v.map_values(|p: (u16, Vec<u8>)| (p.0, p.1@))
}

/// Whether a report covers a packet.
fn is_acked(seq: u16, ack: u16, ack_bits: u32) -> (r: bool)
    ensures
        r == covers(seq, ack, ack_bits),
{
    if !seq_newer(seq, ack) {
        return true;
    }
    let ahead: u16 = seq_ahead(seq, ack);
    if ahead >= 1 && ahead <= 32 {
        return ack_bits & (1u32 << (ahead as u32 - 1)) != 0;
    }
    false
}

impl Default for RetransmitQueue {
    fn default() -> (q: Self)
        ensures
            q@ == Seq::<Pending>::empty(),
    {
        let q = Self { entries: VecDeque::new() };
        assert(q@ =~= Seq::<Pending>::empty());
        q
    }
}

impl RetransmitQueue {
    /// An empty queue.
    pub fn new() -> (q: Self)
        ensures
            q@ == Seq::<Pending>::empty(),
    {
        Self::default()
    }

    /// The number of waiting packets.
    pub fn len(&self) -> (n: usize)
        ensures
            n == self@.len(),
    {
        self.entries.len()
    }

    /// Whether no packet waits.
    pub fn is_empty(&self) -> (r: bool)
        ensures
            r == (self@.len() == 0),
    {
        self.entries.len() == 0
    }

    /// Adds a packet; a full queue refuses it and stays as it is.
    pub fn push(&mut self, seq: u16, datagram: Vec<u8>, now: Nanos) -> (r: Result<()>)
        ensures
            old(self)@.len() < RETRANSMIT_QUEUE_CAP ==> r == Ok::<(), Error>(()) && final(self)@
                == old(self)@.push(Pending { seq, sent_at: now, datagram: datagram@ }),
            old(self)@.len() >= RETRANSMIT_QUEUE_CAP ==> r == Err::<(), Error>(
                Error::Protocol(ProtocolError::RetransmitOverflow),
            ) && final(self)@ == old(self)@,
    {
        let ghost before = self@;
        if self.entries.len() >= RETRANSMIT_QUEUE_CAP {
            return Err(Error::Protocol(ProtocolError::RetransmitOverflow));
        }
        self.entries.push_back(PendingPacket { seq, sent_at: now, datagram });
        assert(self@ =~= before.push(Pending { seq, sent_at: now, datagram: datagram@ }));
        Ok(())
    }

    /// Takes in a report: drops the packets at the front that it covers, and returns their
    /// sequence numbers with the round-trip time of the last of them.
    pub fn on_ack(&mut self, ack: u16, ack_bits: u32, now: Nanos) -> (r: (Vec<u16>, Option<Nanos>))
        ensures
            ({
                let q = old(self)@;
                let n = covered_prefix(q, ack, ack_bits) as int;
                &&& 0 <= n <= q.len()
                &&& final(self)@ == q.skip(n)
                &&& r.0@ == q.take(n).map_values(|e: Pending| e.seq)
                &&& r.1 == (if n == 0 {
                    None::<Nanos>
                } else {
                    Some(elapsed(now, q[n - 1].sent_at))
                })
            }),
    {
        let ghost q = self@;
        let mut acked: Vec<u16> = Vec::new();
        let mut sample: Option<Nanos> = None;
        let mut n: usize = 0;
        let total: usize = self.entries.len();
        assert(q.skip(0) =~= q);
        while self.entries.len() > 0 && is_acked(self.entries[0].seq, ack, ack_bits)
            invariant
                n <= q.len() == total,
                self@ == q.skip(n as int),
                covered_prefix(q, ack, ack_bits) == n + covered_prefix(self@, ack, ack_bits),
                acked@ =~= q.take(n as int).map_values(|e: Pending| e.seq),
                sample == (if n == 0 {
                    None::<Nanos>
                } else {
                    Some(elapsed(now, q[n - 1].sent_at))
                }),
            decreases self.entries@.len(),
        {
            let ghost before = self@;
            assert(before[0] == self.entries@[0]@);
            let front = self.entries.pop_front();
            match front {
                Some(front) => {
                    assert(self@ =~= before.skip(1));
                    assert(before.skip(1) =~= q.skip(n + 1));
                    assert(before[0] == q[n as int]);
                    sample = Some(now.saturating_sub(front.sent_at));
                    acked.push(front.seq);
                    n = n + 1;
                },
                None => {},
            }
        }
        assert(self@.len() > 0 ==> self@[0] == self.entries@[0]@);
        (acked, sample)
    }

    /// Samples are taken when the report arrives; an acknowledged packet leaves nothing to
    /// measure afterwards.
    pub fn sample_rtt(&self, _acked_seq: u16, _now: Nanos) -> (r: Option<Nanos>)
        ensures
            r is None,
    {
        None
    }

    /// The packets that have waited for `rto`, to be sent again; their clocks start anew.
    pub fn retransmit_due(&mut self, now: Nanos, rto: Nanos) -> (due: Vec<(u16, Vec<u8>)>)
        ensures
            packets_view(due@) == due_packets(old(self)@, now, rto),
            final(self)@ == resent(old(self)@, now, rto),
    {
        let ghost q = self@;
        let mut due: Vec<(u16, Vec<u8>)> = Vec::new();
        let n: usize = self.entries.len();
        let mut i: usize = 0;
        while i < n
            invariant
                i <= n == q.len(),
                self.entries@.len() == n,
                self@ =~= q.skip(i as int) + resent(q.take(i as int), now, rto),
                packets_view(due@) =~= due_packets(q.take(i as int), now, rto),
            decreases n - i,
        {
            let ghost before = self@;
            assert(before[0] == self.entries@[0]@);
            let front = self.entries.pop_front();
            match front {
                Some(front) => {
                    assert(self@ =~= before.skip(1));
                    let mut e = front;
                    assert(e@ == q[i as int]);
                    assert(q.take(i + 1).drop_last() =~= q.take(i as int));
                    if now.saturating_sub(e.sent_at) >= rto {
                        e.sent_at = now;
                        let copy = wire::to_vec(e.datagram.as_slice());
                        due.push((e.seq, copy));
                    }
                    let ghost last = e@;
                    let ghost mid = self@;
                    self.entries.push_back(e);
                    assert(self@ =~= mid.push(last));
                },
                None => {
                    assert(false);
                },
            }
            i = i + 1;
        }
        assert(q.take(n as int) =~= q);
        due
    }
}

// What the queue promises.

/// A report drops only what it covers.
pub proof fn only_covered_packets_leave(q: Seq<Pending>, ack: u16, ack_bits: u32)
    ensures
        covered_prefix(q, ack, ack_bits) <= q.len(),
        forall|i: int|
            0 <= i < covered_prefix(q, ack, ack_bits) ==> covers(
                (#[trigger] q[i]).seq,
                ack,
                ack_bits,
            ),
        covered_prefix(q, ack, ack_bits) < q.len() ==> !covers(
            q[covered_prefix(q, ack, ack_bits) as int].seq,
            ack,
            ack_bits,
        ),
    decreases q.len(),
{
    if q.len() > 0 && covers(q[0].seq, ack, ack_bits) {
        only_covered_packets_leave(q.skip(1), ack, ack_bits);
        assert forall|i: int| 0 <= i < covered_prefix(q, ack, ack_bits) implies covers(
            (#[trigger] q[i]).seq,
            ack,
            ack_bits,
        ) by {
            if i > 0 {
                assert(q.skip(1)[i - 1] == q[i]);
            }
        }
    }
}

/// A report that covers every packet empties the queue.
pub proof fn full_report_empties_the_queue(q: Seq<Pending>, ack: u16, ack_bits: u32)
    requires
        forall|i: int| 0 <= i < q.len() ==> covers((#[trigger] q[i]).seq, ack, ack_bits),
    ensures
        covered_prefix(q, ack, ack_bits) == q.len(),
{
    only_covered_packets_leave(q, ack, ack_bits);
    let n = covered_prefix(q, ack, ack_bits) as int;
    if n < q.len() {
        assert(covers(q[n].seq, ack, ack_bits));
    }
}

/// Sending again loses nothing and reorders nothing: the same packets wait, and none that just
/// went out is due again until `rto` has passed.
pub proof fn resending_keeps_every_packet(q: Seq<Pending>, now: Nanos, rto: Nanos, later: Nanos)
    requires
        now <= later < now + rto,
    ensures
        resent(q, now, rto).len() == q.len(),
        forall|i: int|
            0 <= i < q.len() ==> (#[trigger] resent(q, now, rto)[i]).seq == q[i].seq && resent(
                q,
                now,
                rto,
            )[i].datagram == q[i].datagram,
        forall|i: int|
            0 <= i < q.len() && is_due(q[i], now, rto) ==> !is_due(
                #[trigger] resent(q, now, rto)[i],
                later,
                rto,
            ),
{
}

/// Whether an outgoing packet is one of those that are due.
pub open spec fn is_due_packet(q: Seq<Pending>, now: Nanos, rto: Nanos, p: (u16, Seq<u8>)) -> bool {
    exists|i: int|
        0 <= i < q.len() && is_due(#[trigger] q[i], now, rto) && p == (q[i].seq, q[i].datagram)
}

/// Exactly the packets that are due go out.
pub proof fn every_due_packet_goes_out(q: Seq<Pending>, now: Nanos, rto: Nanos)
    ensures
        forall|i: int|
            0 <= i < q.len() && is_due(#[trigger] q[i], now, rto) ==> due_packets(
                q,
                now,
                rto,
            ).contains((q[i].seq, q[i].datagram)),
        forall|j: int|
            0 <= j < due_packets(q, now, rto).len() ==> is_due_packet(
                q,
                now,
                rto,
                #[trigger] due_packets(q, now, rto)[j],
            ),
    decreases q.len(),
{
    if q.len() > 0 {
        let init = q.drop_last();
        every_due_packet_goes_out(init, now, rto);
        let was = due_packets(init, now, rto);
        let is = due_packets(q, now, rto);
        assert forall|i: int| 0 <= i < q.len() && is_due(#[trigger] q[i], now, rto) implies
            is.contains((q[i].seq, q[i].datagram)) by {
            if i < init.len() {
                assert(init[i] == q[i]);
                let j = choose|j: int| 0 <= j < was.len() && was[j] == (q[i].seq, q[i].datagram);
                assert(is[j] == was[j]);
            } else {
                assert(is[is.len() - 1] == (q[i].seq, q[i].datagram));
            }
        }
        assert forall|j: int| 0 <= j < is.len() implies is_due_packet(
            q,
            now,
            rto,
            #[trigger] is[j],
        ) by {
            if j < was.len() {
                assert(is[j] == was[j]);
                let i = choose|i: int|
                    0 <= i < init.len() && is_due(#[trigger] init[i], now, rto) && was[j] == (
                        init[i].seq,
                        init[i].datagram,
                    );
                assert(q[i] == init[i]);
            } else {
                assert(q[q.len() - 1] == q.last());
            }
        }
    }
}

/// What a report `(ack, ack_bits)` covers, by how far a packet is from `ack`: all before it and
/// itself; of the 32 after it those whose bit is set; nothing further ahead.
pub proof fn reports_cover(ack: u16, ack_bits: u32, n: int)
    requires
        -0x8000 < n < 0x8000,
    ensures
        ({
            let seq = ((ack + n) % 0x1_0000) as u16;
            &&& n <= 0 ==> covers(seq, ack, ack_bits)
            &&& 1 <= n <= 32 ==> (covers(seq, ack, ack_bits) <==> (ack_bits >> ((n - 1) as u32)) & 1
                == 1)
            &&& n > 32 ==> !covers(seq, ack, ack_bits)
        }),
{
    if 1 <= n <= 32 {
        let i = (n - 1) as u32;
        assert(i < 32 ==> ((ack_bits & (1u32 << i) != 0) <==> (ack_bits >> i) & 1 == 1))
            by (bit_vector);
    }
}

/// How many packets were last sent `rto` ago or longer.
pub open spec fn overdue(q: Seq<Pending>, now: Nanos, rto: Nanos) -> nat
    decreases q.len(),
{
    if q.len() == 0 {
        0
    } else if q.last().sent_at + rto <= now {
        overdue(q.drop_last(), now, rto) + 1
    } else {
        overdue(q.drop_last(), now, rto)
    }
}

/// Whether an outgoing packet is one that was last sent `rto` ago or longer.
pub open spec fn is_overdue_packet(
    q: Seq<Pending>,
    now: Nanos,
    rto: Nanos,
    p: (u16, Seq<u8>),
) -> bool {
    exists|i: int|
        0 <= i < q.len() && (#[trigger] q[i]).sent_at + rto <= now && p == (
            q[i].seq,
            q[i].datagram,
        )
}

/// A packet goes out again if and only if it was last sent `rto` ago or longer, each such packet
/// once and with the bytes it was first sent with.
pub proof fn overdue_packets_go_out_once(q: Seq<Pending>, now: Nanos, rto: Nanos)
    requires
        rto > 0,
    ensures
        due_packets(q, now, rto).len() == overdue(q, now, rto),
        forall|i: int|
            0 <= i < q.len() && (#[trigger] q[i]).sent_at + rto <= now ==> due_packets(
                q,
                now,
                rto,
            ).contains((q[i].seq, q[i].datagram)),
        forall|j: int|
            0 <= j < due_packets(q, now, rto).len() ==> is_overdue_packet(
                q,
                now,
                rto,
                #[trigger] due_packets(q, now, rto)[j],
            ),
{
    every_due_packet_goes_out(q, now, rto);
    overdue_packets_are_counted(q, now, rto);
    assert forall|i: int| 0 <= i < q.len() && (#[trigger] q[i]).sent_at + rto <= now implies
        due_packets(q, now, rto).contains((q[i].seq, q[i].datagram)) by {
        assert(is_due(q[i], now, rto));
    }
    assert forall|j: int| 0 <= j < due_packets(q, now, rto).len() implies is_overdue_packet(
        q,
        now,
        rto,
        #[trigger] due_packets(q, now, rto)[j],
    ) by {
        let p = due_packets(q, now, rto)[j];
        assert(is_due_packet(q, now, rto, p));
        let i = choose|i: int|
            0 <= i < q.len() && is_due(#[trigger] q[i], now, rto) && p == (q[i].seq, q[i].datagram);
        assert(q[i].sent_at + rto <= now);
    }
}

/// As many packets go out as are overdue.
proof fn overdue_packets_are_counted(q: Seq<Pending>, now: Nanos, rto: Nanos)
    requires
        rto > 0,
    ensures
        due_packets(q, now, rto).len() == overdue(q, now, rto),
    decreases q.len(),
{
    if q.len() > 0 {
        overdue_packets_are_counted(q.drop_last(), now, rto);
    }
}

/// The clock of a packet that goes out starts anew; nothing else of the queue changes.
pub proof fn clocks_start_anew(q: Seq<Pending>, now: Nanos, rto: Nanos)
    requires
        rto > 0,
    ensures
        resent(q, now, rto).len() == q.len(),
        forall|i: int|
            0 <= i < q.len() ==> {
                let e = #[trigger] resent(q, now, rto)[i];
                &&& e.seq == q[i].seq
                &&& e.datagram == q[i].datagram
                &&& q[i].sent_at + rto <= now ==> e.sent_at == now
                &&& q[i].sent_at + rto > now ==> e.sent_at == q[i].sent_at
            },
{
}

} // verus!
