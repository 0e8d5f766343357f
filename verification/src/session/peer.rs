//! One session: its state, and what the reliable layer keeps for it.

use std::collections::{BTreeMap, VecDeque};
use vstd::prelude::*;

use crate::addr::PeerAddr;
use crate::collections::{self, deque_has, deque_push_capped};
use crate::protocol::datagram::{DatagramHeader, FrameRef, FrameView};
use crate::protocol::types::{Nanos, CH_RELIABLE_ORDERED, FLAG_FRAGMENT};
use crate::reliable::fragment::{self, Assembly, FragmentAssembler};
use crate::reliable::retransmit::{Pending, RetransmitQueue};
use crate::reliable::rtt::{self, RttEstimator, RttState};
use crate::reliable::serial::{self, seq_newer, seq_next};
use crate::session::event::{self, Event, SessionEvent};
use crate::wire;

verus! {

broadcast use vstd::std_specs::btree::group_btree_axioms;

/// How many sequence numbers of channel 3 are remembered.
pub const CH3_SEEN_CAP: usize = 256;

/// How many delivered sequence numbers of channel 2 are remembered.
pub const DELIVERED_CAP: usize = 512;

/// The message id of an entry that only keeps a place; no message can have it.
pub const PLACEHOLDER: u16 = 0xFFFF;

/// Where a session is in its life.
#[derive(Debug, Clone, Copy, PartialEq, Eq, Structural)]
pub enum SessionState {
    /// Traffic flows.
    Active,
    /// Nothing came for a while; the peer may still come back.
    Grace { since: Nanos },
}

/// A session.
#[derive(Debug, Clone)]
pub struct Session {
    pub conn_id: u32,
    pub sess_id: u64,
    /// Where the peer was last seen.
    pub peer: PeerAddr,
    /// The key of the packet HMAC.
    pub secret: u64,
    pub token: Vec<u8>,
    /// The sequence number of the next datagram.
    pub send_seq: u16,
    /// When something was last received.
    pub last_rx: Nanos,
    pub state: SessionState,
    /// The bandwidth limit in kilobits per second.
    pub budget_kbps: Option<u16>,
    pub established: Nanos,
    /// Whether anything was received; until then the next two say nothing.
    pub recv_any: bool,
    /// The newest sequence number received.
    pub recv_seq: u16,
    /// Which of the 32 before it were received.
    pub recv_bits: u32,
    /// Channel 1: the sequence number delivered last.
    pub ch1_last: Option<u16>,
    /// Channel 3: the sequence numbers seen last.
    pub ch3_seen: VecDeque<u16>,
    /// Channel 2: packets that wait for an acknowledgement.
    pub retrans_ordered: RetransmitQueue,
    /// Channel 3: packets that wait for an acknowledgement.
    pub retrans_unordered: RetransmitQueue,
    pub rtt: RttEstimator,
    /// Channel 2: incomplete groups of fragments.
    pub assembler: FragmentAssembler,
    /// Channel 2: what came too early, by sequence number: message id and payload.
    pub reorder: BTreeMap<u16, (u16, Vec<u8>)>,
    /// Channel 2: the sequence number to be delivered next.
    pub ch2_next: Option<u16>,
    /// Channel 2: the sequence number delivered last.
    pub delivered_max: u16,
    /// Channel 2: the sequence numbers delivered last.
    pub delivered_seqs: VecDeque<u16>,
    /// The next group of fragments.
    pub frag_group_id: u16,
    /// What was sent lately: when, and how many bytes.
    pub bytes_window: VecDeque<(Nanos, u64)>,
}

/// What a session is.
#[verifier::ext_equal]
pub struct SessionData {
    pub conn_id: u32,
    pub sess_id: u64,
    pub peer: PeerAddr,
    pub secret: u64,
    pub token: Seq<u8>,
    pub send_seq: u16,
    pub last_rx: Nanos,
    pub state: SessionState,
    pub budget_kbps: Option<u16>,
    pub established: Nanos,
    pub recv_any: bool,
    pub recv_seq: u16,
    pub recv_bits: u32,
    pub ch1_last: Option<u16>,
    pub ch3_seen: Seq<u16>,
    pub retrans_ordered: Seq<Pending>,
    pub retrans_unordered: Seq<Pending>,
    pub rtt: RttState,
    pub assembly: Assembly,
    pub reorder: Map<u16, (u16, Seq<u8>)>,
    pub ch2_next: Option<u16>,
    pub delivered_max: u16,
    pub delivered_seqs: Seq<u16>,
    pub frag_group_id: u16,
    pub bytes_window: Seq<(Nanos, u64)>,
}

/// What the early entries are.
pub open spec fn reorder_view(m: Map<u16, (u16, Vec<u8>)>) -> Map<u16, (u16, Seq<u8>)> {
    m.map_values(|e: (u16, Vec<u8>)| (e.0, e.1@))
}

impl View for Session {
    type V = SessionData;

    open spec fn view(&self) -> SessionData {
        SessionData {
            conn_id: self.conn_id,
            sess_id: self.sess_id,
            peer: self.peer,
            secret: self.secret,
            token: self.token@,
            send_seq: self.send_seq,
            last_rx: self.last_rx,
            state: self.state,
            budget_kbps: self.budget_kbps,
            established: self.established,
            recv_any: self.recv_any,
            recv_seq: self.recv_seq,
            recv_bits: self.recv_bits,
            ch1_last: self.ch1_last,
            ch3_seen: self.ch3_seen@,
            retrans_ordered: self.retrans_ordered@,
            retrans_unordered: self.retrans_unordered@,
            rtt: self.rtt@,
            assembly: self.assembler@,
            reorder: reorder_view(self.reorder@),
            ch2_next: self.ch2_next,
            delivered_max: self.delivered_max,
            delivered_seqs: self.delivered_seqs@,
            frag_group_id: self.frag_group_id,
            bytes_window: self.bytes_window@,
        }
    }
}

/// A session that was just opened.
pub open spec fn fresh(
    conn_id: u32,
    sess_id: u64,
    peer: PeerAddr,
    secret: u64,
    token: Seq<u8>,
    now: Nanos,
) -> SessionData {
    SessionData {
        conn_id,
        sess_id,
        peer,
        secret,
        token,
        send_seq: 0,
        last_rx: now,
        state: SessionState::Active,
        budget_kbps: None,
        established: now,
        recv_any: false,
        recv_seq: 0,
        recv_bits: 0,
        ch1_last: None,
        ch3_seen: Seq::empty(),
        retrans_ordered: Seq::empty(),
        retrans_unordered: Seq::empty(),
        rtt: rtt::no_samples(),
        assembly: fragment::no_groups(),
        reorder: Map::empty(),
        ch2_next: Some(0),
        delivered_max: 0,
        delivered_seqs: Seq::empty(),
        frag_group_id: 0,
        bytes_window: Seq::empty(),
    }
}

/// The bytes in a window of what was sent.
pub open spec fn window_sum(w: Seq<(Nanos, u64)>) -> nat
    decreases w.len(),
{
    if w.len() == 0 {
        0
    } else {
        window_sum(w.drop_last()) + w.last().1 as nat
    }
}

/// The most bytes that a budget can allow in a second.
pub const MAX_BUDGET_BYTES: u64 = 8_191_875;

/// What holds of every session.
pub open spec fn session_wf(s: SessionData) -> bool {
    &&& rtt::rtt_wf(s.rtt)
    &&& s.retrans_ordered.len() <= crate::protocol::types::RETRANSMIT_QUEUE_CAP
    &&& s.retrans_unordered.len() <= crate::protocol::types::RETRANSMIT_QUEUE_CAP
    &&& window_sum(s.bytes_window) <= MAX_BUDGET_BYTES
    &&& s.budget_kbps is None ==> s.bytes_window.len() == 0
}

// Acknowledgements.

/// Whether the session holds packet `seq`: delivered, waiting for its turn, or seen.
pub open spec fn holds(s: SessionData, seq: u16) -> bool {
    s.reorder.contains_key(seq) || s.delivered_seqs.contains(seq) || s.ch3_seen.contains(seq)
}

/// The sequence number up to which everything was delivered.
pub open spec fn ack_of(s: SessionData) -> u16 {
    serial::seq_plus(
        match s.ch2_next {
            Some(next) => next,
            None => 0,
        },
        -1,
    )
}

/// The first `n` acknowledgement bits: bit `i` stands for packet `ack + 1 + i`.
pub open spec fn ack_bits_upto(s: SessionData, n: nat) -> u32
    decreases n,
{
    if n == 0 {
        0
    } else {
        let low = ack_bits_upto(s, (n - 1) as nat);
        if holds(s, serial::seq_plus(ack_of(s), n as int)) {
            low | (1u32 << ((n - 1) as u32))
        } else {
            low
        }
    }
}

/// The acknowledgement bits.
pub open spec fn ack_bits_of(s: SessionData) -> u32 {
    ack_bits_upto(s, 32)
}

/// Whether `a` comes before `b`.
pub open spec fn is_older(a: u16, b: u16) -> bool {
    serial::seq_distance(a, b) >= 0x8000
}

/// Whether `a` comes before `b`.
pub fn seq_lt(a: u16, b: u16) -> (r: bool)
    ensures
        r == is_older(a, b),
{
    a.wrapping_sub(b) >= 0x8000
}

/// The receive window after packet `seq`: the newest number, and which of the 32 before it came.
/// Bit `i - 1` stands for the number `i` before the newest.
pub open spec fn window_after(recv_seq: u16, recv_bits: u32, seq: u16) -> (u16, u32) {
    let ahead = serial::seq_distance(seq, recv_seq);
    let back = serial::seq_distance(recv_seq, seq);
    if serial::is_newer(seq, recv_seq) {
        (
            seq,
            if ahead < 32 {
                (recv_bits << (ahead as u32)) | (1u32 << ((ahead - 1) as u32))
            } else if ahead == 32 {
                1u32 << 31u32
            } else {
                0
            },
        )
    } else if 1 <= back <= 32 {
        (recv_seq, recv_bits | (1u32 << ((back - 1) as u32)))
    } else {
        (recv_seq, recv_bits)
    }
}

/// Records packet `seq` in a receive window.
pub fn record_seq(recv_seq: &mut u16, recv_bits: &mut u32, seq: u16)
    ensures
        (*final(recv_seq), *final(recv_bits)) == window_after(*old(recv_seq), *old(recv_bits), seq),
{
    let newest: u16 = *recv_seq;
    if seq_newer(seq, newest) {
        let ahead: u16 = seq.wrapping_sub(newest);
        if ahead < 32 {
            *recv_bits = (*recv_bits << (ahead as u32)) | (1u32 << (ahead as u32 - 1));
        } else if ahead == 32 {
            *recv_bits = 1u32 << 31u32;
        } else {
            *recv_bits = 0;
        }
        *recv_seq = seq;
    } else {
        let back: u16 = newest.wrapping_sub(seq);
        if back >= 1 && back <= 32 {
            *recv_bits = *recv_bits | (1u32 << (back as u32 - 1));
        }
    }
}

// Channel 2.

/// Whether the packet whose turn it is has come.
pub open spec fn can_deliver(s: SessionData) -> bool {
    s.ch2_next matches Some(next) && s.reorder.contains_key(next)
}

/// The session after the packet whose turn it is was delivered.
pub open spec fn delivered_one(s: SessionData) -> SessionData {
    let next = s.ch2_next->0;
    SessionData {
        reorder: s.reorder.remove(next),
        ch2_next: Some(serial::seq_plus(next, 1)),
        delivered_max: next,
        delivered_seqs: collections::push_capped(s.delivered_seqs, next, DELIVERED_CAP as nat),
        ..s
    }
}

/// What the packet whose turn it is has to say; a placeholder says nothing.
pub open spec fn event_of_one(s: SessionData) -> Seq<Event> {
    let (msg_id, payload) = s.reorder[s.ch2_next->0];
    if msg_id == PLACEHOLDER && payload.len() == 0 {
        Seq::empty()
    } else {
        seq![Event::Data { sess_id: s.sess_id, ch: CH_RELIABLE_ORDERED, msg_id, payload }]
    }
}

/// Delivers up to `fuel` packets, in order, until one has not come.
pub open spec fn in_order(s: SessionData, fuel: nat) -> (SessionData, Seq<Event>)
    decreases fuel,
{
    if fuel > 0 && can_deliver(s) {
        let (t, events) = in_order(delivered_one(s), (fuel - 1) as nat);
        (t, event_of_one(s) + events)
    } else {
        (s, Seq::empty())
    }
}

/// Delivers every packet whose turn has come; there are no more sequence numbers than that.
pub open spec fn delivered(s: SessionData) -> (SessionData, Seq<Event>) {
    in_order(s, 0x1_0000)
}

/// The early entries after a group of fragments was completed: the payload at its first number,
/// and placeholders at the numbers of its other fragments.
pub open spec fn with_group(
    m: Map<u16, (u16, Seq<u8>)>,
    first_seq: u16,
    total: u8,
    msg_id: u16,
    payload: Seq<u8>,
) -> Map<u16, (u16, Seq<u8>)> {
    Map::new(
        |k: u16| m.contains_key(k) || k == first_seq || serial::seq_distance(k, first_seq) < total,
        |k: u16|
            if k == first_seq {
                (msg_id, payload)
            } else if serial::seq_distance(k, first_seq) < total {
                (PLACEHOLDER, Seq::empty())
            } else {
                m[k]
            },
    )
}

/// Whether a header announces a fragment.
pub open spec fn is_fragment(h: DatagramHeader) -> bool {
    h.flags & FLAG_FRAGMENT != 0
}

/// What a frame on channel 2 does: duplicates and whole frames from before the delivered range
/// are dropped, fragments are put together, and whatever is complete is delivered in order.
pub open spec fn ch2_received(s: SessionData, h: DatagramHeader, f: FrameView, now: Nanos) -> (
    SessionData,
    Seq<Event>,
) {
    if s.delivered_seqs.contains(h.seq) {
        (s, Seq::empty())
    } else if is_fragment(h) {
        match fragment::fragment_of(f.body) {
            Err(_) => (s, Seq::empty()),
            Ok(x) => {
                let (a, d) = fragment::pushed(
                    s.assembly,
                    x.group,
                    x.first_seq,
                    x.frag_no,
                    x.total,
                    x.chunk,
                    now,
                );
                let t = SessionData { assembly: a, ..s };
                match d {
                    None => (t, Seq::empty()),
                    Some((first_seq, payload)) => delivered(
                        SessionData {
                            reorder: with_group(t.reorder, first_seq, x.total, f.msg_id, payload),
                            ..t
                        },
                    ),
                }
            },
        }
    } else if is_older(h.seq, s.delivered_max) && !s.reorder.contains_key(h.seq) {
        (s, Seq::empty())
    } else {
        delivered(SessionData { reorder: s.reorder.insert(h.seq, (f.msg_id, f.body)), ..s })
    }
}

impl Session {
    /// A session that was just opened.
    pub fn new(
        conn_id: u32,
        sess_id: u64,
        peer: PeerAddr,
        secret: u64,
        token: Vec<u8>,
        now: Nanos,
    ) -> (s: Self)
        ensures
            s@ == fresh(conn_id, sess_id, peer, secret, token@, now),
            session_wf(s@),
    {
        let s = Session {
            conn_id,
            sess_id,
            peer,
            secret,
            token,
            send_seq: 0,
            last_rx: now,
            state: SessionState::Active,
            budget_kbps: None,
            established: now,
            recv_any: false,
            recv_seq: 0,
            recv_bits: 0,
            ch1_last: None,
            ch3_seen: VecDeque::new(),
            retrans_ordered: RetransmitQueue::new(),
            retrans_unordered: RetransmitQueue::new(),
            rtt: RttEstimator::new(),
            assembler: FragmentAssembler::new(),
            reorder: BTreeMap::new(),
            ch2_next: Some(0),
            delivered_max: 0,
            delivered_seqs: VecDeque::new(),
            frag_group_id: 0,
            bytes_window: VecDeque::new(),
        };
        assert(s@ =~= fresh(conn_id, sess_id, peer, secret, token@, now));
        s
    }

    /// Whether traffic flows.
    pub fn is_active(&self) -> (r: bool)
        ensures
            r == (self@.state == SessionState::Active),
    {
        match self.state {
            SessionState::Active => true,
            SessionState::Grace { .. } => false,
        }
    }

    /// The acknowledgement to be sent: the number up to which everything was delivered, and which
    /// of the 32 after it are held.
    pub fn compute_ack(&self) -> (r: (u16, u32))
        ensures
            r.0 == ack_of(self@),
            r.1 == ack_bits_of(self@),
    {
        let next: u16 = match self.ch2_next {
            Some(next) => next,
            None => 0,
        };
        let ack: u16 = next.wrapping_sub(1);
        let mut bits: u32 = 0;
        let mut i: u32 = 0;
        while i < 32
            invariant
                i <= 32,
                ack == ack_of(self@),
                bits == ack_bits_upto(self@, i as nat),
            decreases 32 - i,
        {
            let seq: u16 = ack.wrapping_add(i as u16 + 1);
            assert(reorder_view(self.reorder@).contains_key(seq) == self.reorder@.contains_key(seq));
            if self.reorder.contains_key(&seq) || deque_has(&self.delivered_seqs, seq) || deque_has(
                &self.ch3_seen,
                seq,
            ) {
                bits = bits | (1u32 << i);
            }
            i = i + 1;
        }
        (ack, bits)
    }

    /// Channel 2: delivers every packet whose turn has come, and stops at the first gap.
    fn deliver_in_order(&mut self, events: &mut Vec<SessionEvent>)
        ensures
            final(self)@ == delivered(old(self)@).0,
            event::events_view(final(events)@) == event::events_view(old(events)@) + delivered(
                old(self)@,
            ).1,
    {
        let ghost s0 = self@;
        let ghost before = event::events_view(events@);
        let mut left: u32 = 0x1_0000;
        let mut going: bool = true;
        while going && left > 0
            invariant
                left <= 0x1_0000,
                !going ==> !can_deliver(self@),
                in_order(self@, left as nat).0 == delivered(s0).0,
                event::events_view(events@) + in_order(self@, left as nat).1 =~= before + delivered(
                    s0,
                ).1,
            decreases left + (if going { 1int } else { 0int }),
        {
            let ghost s = self@;
            match self.ch2_next {
                None => {
                    going = false;
                },
                Some(next) => {
                    let ghost m = self.reorder@;
                    assert(s.reorder.contains_key(next) == m.contains_key(next));
                    match self.reorder.remove(&next) {
                        None => {
                            assert(self@ =~= s);
                            going = false;
                        },
                        Some((msg_id, payload)) => {
                            assert(s.reorder[next] == (msg_id, payload@));
                            assert(reorder_view(self.reorder@) =~= s.reorder.remove(next));
                            self.ch2_next = Some(seq_next(next));
                            self.delivered_max = next;
                            deque_push_capped(&mut self.delivered_seqs, next, DELIVERED_CAP);
                            assert(self@ =~= delivered_one(s));
                            if msg_id != PLACEHOLDER || payload.len() > 0 {
                                let e = SessionEvent::Data {
                                    sess_id: self.sess_id,
                                    ch: CH_RELIABLE_ORDERED,
                                    msg_id,
                                    payload,
                                };
                                let ghost ev = e@;
                                let ghost was = events@;
                                events.push(e);
                                assert(event::events_view(events@) =~= event::events_view(was).push(
                                    ev,
                                ));
                                assert(event_of_one(s) =~= seq![ev]);
                            }
                            left = left - 1;
                        },
                    }
                },
            }
        }
        assert(event::events_view(events@) =~= before + delivered(s0).1);
    }

    /// Puts a completed group of fragments among the early entries.
    fn place_group(&mut self, first_seq: u16, total: u8, msg_id: u16, payload: Vec<u8>)
        ensures
            final(self)@ == (SessionData {
                reorder: with_group(old(self)@.reorder, first_seq, total, msg_id, payload@),
                ..old(self)@
            }),
    {
        let ghost s = self@;
        let mut i: u8 = 1;
        while i < total
            invariant
                1 <= i,
                i <= total || i == 1,
                self@ == (SessionData { reorder: self@.reorder, ..s }),
                forall|k: u16|
                    #[trigger] self@.reorder.contains_key(k) <==> s.reorder.contains_key(k) || 1
                        <= serial::seq_distance(k, first_seq) < i,
                forall|k: u16| #[trigger]
                    self@.reorder.contains_key(k) ==> self@.reorder[k] == (if 1
                        <= serial::seq_distance(k, first_seq) < i {
                        (PLACEHOLDER, Seq::empty())
                    } else {
                        s.reorder[k]
                    }),
            decreases total - i,
        {
            let seq: u16 = first_seq.wrapping_add(i as u16);
            let ghost was = self@.reorder;
            let empty: Vec<u8> = Vec::new();
            self.reorder.insert(seq, (PLACEHOLDER, empty));
            assert(empty@ =~= Seq::<u8>::empty());
            assert(self@.reorder =~= was.insert(seq, (PLACEHOLDER, Seq::empty())));
            assert forall|k: u16| 1 <= #[trigger] serial::seq_distance(k, first_seq) < i + 1 implies
                1 <= serial::seq_distance(k, first_seq) < i || k == seq by {}
            i = i + 1;
        }
        let ghost was = self@.reorder;
        self.reorder.insert(first_seq, (msg_id, payload));
        assert(self@.reorder =~= was.insert(first_seq, (msg_id, payload@)));
        let ghost want = with_group(s.reorder, first_seq, total, msg_id, payload@);
        assert forall|k: u16| k != first_seq implies #[trigger] serial::seq_distance(k, first_seq)
            >= 1 by {}
        assert forall|k: u16| #[trigger] self@.reorder.contains_key(k) == want.contains_key(k) by {
            assert(was.contains_key(k) == (s.reorder.contains_key(k) || 1 <= serial::seq_distance(
                k,
                first_seq,
            ) < i));
        }
        assert(self@.reorder =~= want);
        assert(self@ =~= (SessionData {
            reorder: with_group(s.reorder, first_seq, total, msg_id, payload@),
            ..s
        }));
    }

    /// Channel 2: reassembly, reordering, delivery in order.
    pub fn handle_ch2(
        &mut self,
        header: &DatagramHeader,
        f: &FrameRef,
        now: Nanos,
        events: &mut Vec<SessionEvent>,
    )
        ensures
            final(self)@ == ch2_received(old(self)@, *header, f@, now).0,
            event::events_view(final(events)@) == event::events_view(old(events)@) + ch2_received(
                old(self)@,
                *header,
                f@,
                now,
            ).1,
    {
        let ghost s = self@;
        let ghost before = event::events_view(events@);
        assert(before + Seq::<Event>::empty() =~= before);
        let seq: u16 = header.seq;
        if deque_has(&self.delivered_seqs, seq) {
            return;
        }
        if header.flags & FLAG_FRAGMENT != 0 {
            match fragment::decode_fragment(f.body) {
                Err(_) => {},
                Ok((group, first_seq, frag_no, total, chunk)) => {
                    let done = self.assembler.push(group, first_seq, frag_no, total, chunk, now);
                    assert(self@ =~= (SessionData { assembly: self.assembler@, ..s }));
                    match done {
                        None => {},
                        Some((first, payload)) => {
                            self.place_group(first, total, f.msg_id, payload);
                            self.deliver_in_order(events);
                        },
                    }
                },
            }
        } else {
            assert(s.reorder.contains_key(seq) == self.reorder@.contains_key(seq));
            if seq_lt(seq, self.delivered_max) && !self.reorder.contains_key(&seq) {
                return;
            }
            let body = wire::to_vec(f.body);
            self.reorder.insert(seq, (f.msg_id, body));
            assert(reorder_view(self.reorder@) =~= s.reorder.insert(seq, (f.msg_id, f.body@)));
            assert(self@ =~= (SessionData {
                reorder: s.reorder.insert(seq, (f.msg_id, f.body@)),
                ..s
            }));
            self.deliver_in_order(events);
        }
    }
}

// What delivery promises.

/// The state after some deliveries, if there is one more to deliver.
proof fn in_order_progress(s: SessionData, fuel: nat)
    requires
        fuel <= 0x1_0000,
        can_deliver(in_order(s, fuel).0),
    ensures
        can_deliver(s),
        in_order(s, fuel).0.ch2_next == Some(serial::seq_plus(s.ch2_next->0, fuel as int)),
        forall|k: u16| #[trigger]
            in_order(s, fuel).0.reorder.contains_key(k) ==> s.reorder.contains_key(k)
                && serial::seq_distance(k, s.ch2_next->0) >= fuel,
    decreases fuel,
{
    if fuel > 0 && can_deliver(s) {
        let next = s.ch2_next->0;
        let t = delivered_one(s);
        in_order_progress(t, (fuel - 1) as nat);
        let u = in_order(s, fuel).0;
        assert(u == in_order(t, (fuel - 1) as nat).0);
        serial::seq_plus_adds(next, 1, fuel - 1);
        assert forall|k: u16| #[trigger] u.reorder.contains_key(k) implies s.reorder.contains_key(k)
            && serial::seq_distance(k, next) >= fuel by {
            assert(t.reorder.contains_key(k));
            assert(k != next);
            serial::distance_from_next(next, k);
        }
    } else {
        serial::seq_plus_circle(s.ch2_next->0);
        assert forall|k: u16| #[trigger] s.reorder.contains_key(k) implies serial::seq_distance(
            k,
            s.ch2_next->0,
        ) >= 0 by {
            serial::plus_of_distance(s.ch2_next->0, k);
        }
    }
}

/// Delivery goes on until the packet whose turn it is has not come.
pub proof fn delivery_stops_only_at_a_gap(s: SessionData)
    ensures
        !can_deliver(delivered(s).0),
{
    if can_deliver(delivered(s).0) {
        in_order_progress(s, 0x1_0000);
        let t = delivered(s).0;
        assert(t.reorder.contains_key(t.ch2_next->0));
        serial::plus_of_distance(s.ch2_next->0, t.ch2_next->0);
    }
}

/// Delivery touches only what channel 2 keeps.
pub proof fn delivery_keeps_the_rest(s: SessionData, fuel: nat)
    ensures
        ({
            let t = in_order(s, fuel).0;
            t == (SessionData {
                reorder: t.reorder,
                ch2_next: t.ch2_next,
                delivered_max: t.delivered_max,
                delivered_seqs: t.delivered_seqs,
                ..s
            })
        }),
    decreases fuel,
{
    if fuel > 0 && can_deliver(s) {
        delivery_keeps_the_rest(delivered_one(s), (fuel - 1) as nat);
    }
}

/// A frame on channel 2 touches only what channel 2 keeps.
pub proof fn ch2_keeps_the_rest(s: SessionData, h: DatagramHeader, f: FrameView, now: Nanos)
    ensures
        ({
            let t = ch2_received(s, h, f, now).0;
            t == (SessionData {
                assembly: t.assembly,
                reorder: t.reorder,
                ch2_next: t.ch2_next,
                delivered_max: t.delivered_max,
                delivered_seqs: t.delivered_seqs,
                ..s
            })
        }),
{
    match fragment::fragment_of(f.body) {
        Ok(x) => {
            let (a, d) = fragment::pushed(
                s.assembly,
                x.group,
                x.first_seq,
                x.frag_no,
                x.total,
                x.chunk,
                now,
            );
            match d {
                Some((first_seq, payload)) => {
                    delivery_keeps_the_rest(
                        SessionData {
                            assembly: a,
                            reorder: with_group(s.reorder, first_seq, x.total, f.msg_id, payload),
                            ..s
                        },
                        0x1_0000,
                    );
                },
                None => {},
            }
        },
        Err(_) => {},
    }
    delivery_keeps_the_rest(
        SessionData { reorder: s.reorder.insert(h.seq, (f.msg_id, f.body)), ..s },
        0x1_0000,
    );
}

} // verus!
