//! What receiving a datagram promises.

use vstd::prelude::*;

use crate::addr::PeerAddr;
use crate::error::ProtocolError;
use crate::outside;
use crate::protocol::datagram::{self, DatagramHeader, FrameView};
use crate::protocol::types::Nanos;
use crate::reliable::fragment;
use crate::reliable::retransmit::{self, Pending};
use crate::reliable::rtt;
use crate::session::event::Event;
use crate::session::handshake::{self, Challenge};
use crate::session::inbound::{self, Inbound};
use crate::session::peer::{self, SessionData, SessionState};
use crate::session::seal;
use crate::session::table::laws;
use crate::session::table::receive;
use crate::session::table::{self, TableData};
use crate::stats::StatsSnapshot;
use crate::wire;

verus! {

// Frames.

/// One frame. On channel 0 it is delivered. On channel 1 it is delivered if its number is ahead of
/// the last one delivered there by less than half the circle, or is the first. On channel 3 it is
/// delivered unless its number is among the last 256 delivered there. On channel 2 what is complete
/// is delivered in order. Frames on 2 and 3 are acknowledged whether or not they are delivered.
pub proof fn frames_are_taken_in(i: Inbound, h: DatagramHeader, f: FrameView, now: Nanos)
    requires
        f.body.len() < 0x1_0000_0000_0000_0000,
    ensures
        ({
            let s = i.session;
            let r = inbound::frame_received(i, h, f, now);
            let told = i.events.push(
                Event::Data {
                    sess_id: s.sess_id,
                    ch: f.ch,
                    msg_id: f.msg_id,
                    payload: f.body,
                },
            );
            let newer = match s.ch1_last {
                None => true,
                Some(last) => 1 <= (h.seq - last) % 0x1_0000 < 0x8000,
            };
            let w = SessionData {
                recv_any: r.session.recv_any,
                recv_seq: r.session.recv_seq,
                recv_bits: r.session.recv_bits,
                ..s
            };
            &&& f.ch == 0 ==> r.events == told && r.session == w
            &&& f.ch == 1 && newer ==> r.events == told && r.session == (SessionData {
                ch1_last: Some(h.seq),
                ..w
            })
            &&& f.ch == 1 && !newer ==> r.events == i.events && r.session == w
            &&& f.ch == 2 ==> r.events == i.events + peer::ch2_received(w, h, f, now).1 && r.session
                == peer::ch2_received(w, h, f, now).0
            &&& f.ch == 3 && s.ch3_seen.contains(h.seq) ==> r.events == i.events && r.session == w
            &&& f.ch == 3 && !s.ch3_seen.contains(h.seq) ==> r.events == told && r.session == (
            SessionData { ch3_seen: r.session.ch3_seen, ..w })
            &&& f.ch == 3 && !s.ch3_seen.contains(h.seq) && s.ch3_seen.len() < 256
                ==> r.session.ch3_seen == s.ch3_seen.push(h.seq)
            &&& f.ch == 3 && !s.ch3_seen.contains(h.seq) && s.ch3_seen.len() == 256
                ==> r.session.ch3_seen == s.ch3_seen.skip(1).push(h.seq)
            &&& f.ch > 3 ==> r.events == i.events && r.session == w
            &&& r.owes_ack <==> i.owes_ack || f.ch == 2 || f.ch == 3
            &&& r.stats.pkt_bytes_in == (i.stats.pkt_bytes_in + f.body.len())
                % 0x1_0000_0000_0000_0000
            &&& r.stats.pkt_bad == (i.stats.pkt_bad + if f.ch > 3 {
                1int
            } else {
                0
            }) % 0x1_0000_0000_0000_0000
            &&& r.stats == (StatsSnapshot {
                pkt_bytes_in: r.stats.pkt_bytes_in,
                pkt_bad: r.stats.pkt_bad,
                ..i.stats
            })
        }),
{
    let s = inbound::recorded(i.session, h.seq);
    if f.ch == 2 {
        peer::ch2_keeps_the_rest(s, h, f, now);
    }
    if f.ch == 3 && i.session.ch3_seen.len() == 256 {
        let q = i.session.ch3_seen;
        assert(q.push(h.seq).skip(1) =~= q.skip(1).push(h.seq));
    }
}

/// Whether a frame is on a reliable channel.
pub open spec fn is_reliable(f: FrameView) -> bool {
    f.ch == 2 || f.ch == 3
}

/// Whether one of the frames is on a reliable channel.
pub open spec fn has_reliable(frames: Seq<FrameView>) -> bool {
    exists|j: int| 0 <= j < frames.len() && is_reliable(#[trigger] frames[j])
}

/// An acknowledgement is owed if it was before or one of the frames is on a reliable channel.
proof fn acks_are_owed(i: Inbound, h: DatagramHeader, frames: Seq<FrameView>, now: Nanos)
    ensures
        inbound::frames_received(i, h, frames, now).owes_ack <==> i.owes_ack || has_reliable(
            frames,
        ),
        inbound::frames_received(i, h, frames, now).stats == (StatsSnapshot {
            pkt_bytes_in: inbound::frames_received(i, h, frames, now).stats.pkt_bytes_in,
            pkt_bad: inbound::frames_received(i, h, frames, now).stats.pkt_bad,
            ..i.stats
        }),
    decreases frames.len(),
{
    if frames.len() > 0 {
        let init = frames.drop_last();
        acks_are_owed(i, h, init, now);
        if has_reliable(init) {
            let j = choose|j: int| 0 <= j < init.len() && is_reliable(#[trigger] init[j]);
            assert(frames[j] == init[j]);
        }
        if has_reliable(frames) && !has_reliable(init) {
            let j = choose|j: int| 0 <= j < frames.len() && is_reliable(#[trigger] frames[j]);
            if j < init.len() {
                assert(init[j] == frames[j]);
            }
        }
        if is_reliable(frames.last()) {
            assert(is_reliable(frames[frames.len() - 1]));
        }
    }
}

/// A datagram with reliable frames is answered with a bare acknowledgement, and no other is: a
/// header with the flag of one, the connection, the next sequence number, and what the session has
/// received after this datagram.
pub proof fn reliable_frames_are_acknowledged(
    s: SessionData,
    from: PeerAddr,
    h: DatagramHeader,
    frames: Seq<FrameView>,
    stats: StatsSnapshot,
    now: Nanos,
)
    requires
        s.state == SessionState::Active,
    ensures
        ({
            let i = inbound::packet_received(s, from, h, frames, stats, now);
            let t = i.session;
            &&& inbound::packet_reply(i) is Some <==> has_reliable(frames)
            &&& inbound::packet_reply(i) matches Some(bytes) ==> datagram::parse(bytes) == Ok::<
                (DatagramHeader, Seq<FrameView>),
                ProtocolError,
            >(
                (
                    DatagramHeader {
                        version: 1,
                        flags: 2,
                        conn_id: s.conn_id,
                        seq: s.send_seq,
                        ack: peer::ack_of(t),
                        ack_bits: peer::ack_bits_of(t),
                    },
                    Seq::<FrameView>::empty(),
                ),
            )
        }),
{
    let i = inbound::packet_received(s, from, h, frames, stats, now);
    let u = SessionData { peer: from, last_rx: now, ..s };
    let st = if s.peer != from {
        StatsSnapshot {
            nat_rebind: crate::stats::count_sum(stats.nat_rebind, 1),
            ..stats
        }
    } else {
        stats
    };
    let start = Inbound {
        session: inbound::ack_received(u, h, now),
        events: Seq::empty(),
        owes_ack: false,
        stats: inbound::ack_counted(u, h, st),
    };
    acks_are_owed(start, h, frames, now);
    inbound::packet_keeps_the_session(s, from, h, frames, stats, now);
    datagram::decode_inverts_encode(inbound::pure_ack_header(i.session), Seq::<FrameView>::empty());
}

/// What a session says it has received: everything before the packet whose turn it is, and of the
/// 32 packets from there on those that are kept for their turn, were delivered, or were seen on
/// channel 3.
pub proof fn acknowledgements_say_what_was_received(s: SessionData, next: u16, j: int)
    requires
        s.ch2_next == Some(next),
        0 <= j < 32,
    ensures
        ({
            let seq = ((next + j) % 0x1_0000) as u16;
            &&& peer::ack_of(s) == (next - 1) % 0x1_0000
            &&& (peer::ack_bits_of(s) >> (j as u32)) & 1 == 1 <==> s.reorder.contains_key(seq)
                || s.delivered_seqs.contains(seq) || s.ch3_seen.contains(seq)
        }),
{
    laws::ack_bits_are_exact(s, j);
    let bits = peer::ack_bits_of(s);
    let k = j as u32;
    assert(k < 32 ==> ((bits & (1u32 << k) != 0) <==> (bits >> k) & 1 == 1)) by (bit_vector);
    assert(crate::reliable::serial::seq_plus(peer::ack_of(s), j + 1) == ((next + j) % 0x1_0000));
}

// Reports.

/// Whether `is` is what a report leaves of a queue: it drops packets from the front, only such as
/// it covers, and stops only at one that it does not cover.
pub open spec fn is_cleared(was: Seq<Pending>, is: Seq<Pending>, ack: u16, ack_bits: u32) -> bool {
    let n = was.len() - is.len();
    &&& n >= 0
    &&& is == was.skip(n)
    &&& forall|j: int| 0 <= j < n ==> retransmit::covers((#[trigger] was[j]).seq, ack, ack_bits)
    &&& is.len() > 0 ==> !retransmit::covers(is[0].seq, ack, ack_bits)
}

/// The report in the header of a datagram clears both queues, is counted, and yields a round-trip
/// sample: how long ago the last packet that it drops was sent, on channel 3 if it drops one there
/// and else on channel 2. Frames do not matter to that.
pub proof fn reports_clear_the_queues(
    s: SessionData,
    from: PeerAddr,
    h: DatagramHeader,
    frames: Seq<FrameView>,
    stats: StatsSnapshot,
    now: Nanos,
)
    requires
        s.state == SessionState::Active,
        s.retrans_ordered.len() <= 64,
        s.retrans_unordered.len() <= 64,
    ensures
        ({
            let i = inbound::packet_received(s, from, h, frames, stats, now);
            let t = i.session;
            let a = s.retrans_ordered.len() - t.retrans_ordered.len();
            let b = s.retrans_unordered.len() - t.retrans_unordered.len();
            &&& is_cleared(s.retrans_ordered, t.retrans_ordered, h.ack, h.ack_bits)
            &&& is_cleared(s.retrans_unordered, t.retrans_unordered, h.ack, h.ack_bits)
            &&& i.stats.acks_seen == (stats.acks_seen + a + b) % 0x1_0000_0000_0000_0000
            &&& a == 0 && b == 0 ==> t.rtt == s.rtt
            &&& b > 0 && s.retrans_unordered[b - 1].sent_at <= now ==> t.rtt == rtt::sampled(
                s.rtt,
                (now - s.retrans_unordered[b - 1].sent_at) as u64,
            )
            &&& b == 0 && a > 0 && s.retrans_ordered[a - 1].sent_at <= now ==> t.rtt
                == rtt::sampled(s.rtt, (now - s.retrans_ordered[a - 1].sent_at) as u64)
        }),
{
    let u = SessionData { peer: from, last_rx: now, ..s };
    let st = if s.peer != from {
        StatsSnapshot {
            nat_rebind: crate::stats::count_sum(stats.nat_rebind, 1),
            ..stats
        }
    } else {
        stats
    };
    let start = Inbound {
        session: inbound::ack_received(u, h, now),
        events: Seq::empty(),
        owes_ack: false,
        stats: inbound::ack_counted(u, h, st),
    };
    inbound::frames_keep(start, h, frames, now);
    acks_are_owed(start, h, frames, now);
    retransmit::only_covered_packets_leave(s.retrans_ordered, h.ack, h.ack_bits);
    retransmit::only_covered_packets_leave(s.retrans_unordered, h.ack, h.ack_bits);
}

/// A datagram moves the session to where it came from, counts the move if there was one, and is
/// the latest sign of life.
pub proof fn sessions_follow_their_peer(
    s: SessionData,
    from: PeerAddr,
    h: DatagramHeader,
    frames: Seq<FrameView>,
    stats: StatsSnapshot,
    now: Nanos,
)
    ensures
        ({
            let i = inbound::packet_received(s, from, h, frames, stats, now);
            &&& i.session.peer == from
            &&& i.session.last_rx == now
            &&& i.session.state == SessionState::Active
            &&& i.stats.nat_rebind == (stats.nat_rebind + if s.peer != from {
                1int
            } else {
                0
            }) % 0x1_0000_0000_0000_0000
        }),
{
    let u = SessionData { peer: from, last_rx: now, ..s };
    let st = if s.peer != from {
        StatsSnapshot {
            nat_rebind: crate::stats::count_sum(stats.nat_rebind, 1),
            ..stats
        }
    } else {
        stats
    };
    inbound::packet_keeps_the_session(s, from, h, frames, stats, now);
    let start = Inbound {
        session: inbound::ack_received(u, h, now),
        events: Seq::empty(),
        owes_ack: false,
        stats: inbound::ack_counted(u, h, st),
    };
    acks_are_owed(start, h, frames, now);
}

/// The frames of a datagram to an active session are taken in one after the other, none is left
/// out, and what comes of a datagram with one frame more is what comes of that frame.
pub proof fn every_frame_is_taken_in(
    s: SessionData,
    from: PeerAddr,
    h: DatagramHeader,
    frames: Seq<FrameView>,
    f: FrameView,
    stats: StatsSnapshot,
    now: Nanos,
)
    requires
        s.state == SessionState::Active,
    ensures
        inbound::packet_received(s, from, h, frames.push(f), stats, now) == inbound::frame_received(
            inbound::packet_received(s, from, h, frames, stats, now),
            h,
            f,
            now,
        ),
        ({
            let i = inbound::packet_received(s, from, h, Seq::empty(), stats, now);
            &&& i.events.len() == 0
            &&& i.session == (SessionData {
                peer: from,
                last_rx: now,
                retrans_ordered: i.session.retrans_ordered,
                retrans_unordered: i.session.retrans_unordered,
                rtt: i.session.rtt,
                ..s
            })
            &&& i.stats == (StatsSnapshot {
                nat_rebind: i.stats.nat_rebind,
                acks_seen: i.stats.acks_seen,
                ..stats
            })
        }),
{
    assert(frames.push(f).drop_last() =~= frames);
}

// Datagrams.

/// A datagram that cannot be used is counted and leaves no other trace: no event, no answer.
pub proof fn useless_datagrams_leave_no_trace(t: TableData)
    ensures
        receive::dropped(t).events.len() == 0,
        receive::dropped(t).reply is None,
        receive::dropped(t).table == (TableData {
            stats: StatsSnapshot {
                pkt_bad: ((t.stats.pkt_bad + 1) % 0x1_0000_0000_0000_0000) as u64,
                ..t.stats
            },
            ..t
        }),
{
}

/// What a datagram is good for, once its HMAC was dealt with: nothing, if it is none; a handshake,
/// if it says so; else what its connection makes of it, if there is one, and nothing if not. What
/// is a datagram is counted as received.
pub proof fn datagrams_find_their_session(
    t: TableData,
    peer: PeerAddr,
    data: Seq<u8>,
    random: Seq<u8>,
    now: Nanos,
    h: DatagramHeader,
    frames: Seq<FrameView>,
)
    requires
        datagram::parse(data) == Ok::<(DatagramHeader, Seq<FrameView>), ProtocolError>((h, frames)),
        h.flags & 4 == 0,
    ensures
        ({
            let o = receive::data_received(t, peer, data, random, now);
            let counted = StatsSnapshot {
                pkt_in: ((t.stats.pkt_in + 1) % 0x1_0000_0000_0000_0000) as u64,
                ..t.stats
            };
            let u = TableData { stats: counted, ..t };
            &&& h.conn_id == 0 || !t.sessions.contains_key(h.conn_id) ==> o == receive::dropped(u)
            &&& h.conn_id != 0 && t.sessions.contains_key(h.conn_id) ==> {
                let i = inbound::packet_received(
                    t.sessions[h.conn_id],
                    peer,
                    h,
                    frames,
                    counted,
                    now,
                );
                &&& o.events == i.events
                &&& o.reply == inbound::packet_reply(i)
                &&& o.table == (TableData {
                    sessions: t.sessions.insert(h.conn_id, i.session),
                    stats: i.stats,
                    ..t
                })
            }
        }),
{
}

/// With HMACs in use, a datagram that announces one is read only if its last four bytes are the
/// first four of the HMAC-SHA256 of the rest, under the secret of the session that it names. Then
/// the rest is what is read; else nothing is.
pub proof fn only_the_right_hmac_opens_a_datagram(
    t: TableData,
    peer: PeerAddr,
    buf: Seq<u8>,
    random: Seq<u8>,
    now: Nanos,
)
    requires
        t.cfg.enable_hmac,
        buf.len() >= 16,
        buf[3] & 20 == 16,
    ensures
        ({
            let conn_id = (buf[4] + 256 * buf[5] + 65_536 * buf[6] + 16_777_216 * buf[7]) as u32;
            let data = buf.take(buf.len() - 4);
            let key = wire::le_bytes(t.sessions[conn_id].secret as nat, 8);
            let mac = outside::hmac_sha256_of(key, data);
            let right = buf.len() >= 20 && t.sessions.contains_key(conn_id) && forall|j: int|
                0 <= j < 4 ==> #[trigger] buf[buf.len() - 4 + j] == mac[j];
            receive::received(t, peer, buf, random, now) == if right {
                receive::data_received(t, peer, data, random, now)
            } else {
                receive::dropped(t)
            }
        }),
{
    let conn_id = (buf[4] + 256 * buf[5] + 65_536 * buf[6] + 16_777_216 * buf[7]) as u32;
    assert(4u8 | 16u8 == 20u8) by (bit_vector);
    crate::protocol::layout::bytes_are_read_low_first(buf.subrange(4, 8));
    let data = buf.take(buf.len() - 4);
    let key = wire::le_bytes(t.sessions[conn_id].secret as nat, 8);
    let mac = outside::hmac_sha256_of(key, data);
    let four = seal::hmac4_of(key, data);
    if buf.len() >= 20 && t.sessions.contains_key(conn_id) {
        let tail = buf.skip(buf.len() - 4);
        if forall|j: int| 0 <= j < 4 ==> #[trigger] buf[buf.len() - 4 + j] == mac[j] {
            assert forall|j: int| 0 <= j < 4 implies tail[j] == four[j] by {
                assert(buf[buf.len() - 4 + j] == mac[j]);
            }
            assert(tail =~= four);
        } else {
            let j = choose|j: int| 0 <= j < 4 && #[trigger] buf[buf.len() - 4 + j] != mac[j];
            assert(tail[j] != four[j]);
        }
    }
}

/// A datagram that announces no HMAC, one of a handshake, and every datagram where HMACs are not in
/// use is read as it is.
pub proof fn bare_datagrams_are_read(
    t: TableData,
    peer: PeerAddr,
    buf: Seq<u8>,
    random: Seq<u8>,
    now: Nanos,
)
    requires
        !t.cfg.enable_hmac || buf.len() < 16 || buf[3] & 20 != 16,
    ensures
        receive::received(t, peer, buf, random, now) == receive::data_received(
            t,
            peer,
            buf,
            random,
            now,
        ),
{
    assert(4u8 | 16u8 == 20u8) by (bit_vector);
}

// Handshakes.

/// The engine's side of a handshake is a datagram like any other: flagged as a handshake, with the
/// connection, and with the eight bytes in one frame.
pub proof fn answers_can_be_read(conn_id: u32, bytes: Seq<u8>)
    requires
        bytes.len() == 8,
    ensures
        datagram::parse(receive::answer(conn_id, bytes)) == Ok::<
            (DatagramHeader, Seq<FrameView>),
            ProtocolError,
        >(
            (
                DatagramHeader { version: 1, flags: 4, conn_id, seq: 0, ack: 0, ack_bits: 0 },
                seq![FrameView { ch: 0, msg_id: 0, body: bytes }],
            ),
        ),
        receive::answer(conn_id, bytes).len() == 28,
{
    receive::answer_len(conn_id, bytes);
    datagram::decode_inverts_encode(
        receive::answer_header(conn_id),
        seq![FrameView { ch: 0, msg_id: 0, body: bytes }],
    );
}

/// A challenge stands for as long as the timeout says, and not longer.
pub proof fn challenges_stand_for_a_while(
    m: Map<PeerAddr, Challenge>,
    now: Nanos,
    timeout: Nanos,
    p: PeerAddr,
)
    requires
        timeout > 0,
    ensures
        ({
            let kept = handshake::unexpired(m, now, timeout);
            &&& kept.contains_key(p) <==> m.contains_key(p) && now < m[p].created + timeout
            &&& kept.contains_key(p) ==> kept[p] == m[p]
        }),
{
}

/// What a handshake datagram with a first frame leads to. Without a challenge that stands, the peer
/// is challenged, and told so if what it sent was no shorter than the answer. With one that it does
/// not send back, nothing happens. With one that it sends back, it has a session with the next ids,
/// its own address, what it sent behind the challenge for a token, and the random bytes for a
/// secret, which it is told with its connection.
pub proof fn handshakes_go_in_two_steps(
    t: TableData,
    peer: PeerAddr,
    frames: Seq<FrameView>,
    len: nat,
    random: Seq<u8>,
    now: Nanos,
)
    requires
        frames.len() > 0,
        t.cfg.handshake_timeout > 0,
        t.next_conn_id < 0xFFFF_FFFF,
        t.next_sess_id < u64::MAX,
    ensures
        ({
            let o = receive::handshake_received(t, peer, frames, len, random, now);
            let body = frames[0].body;
            let stands = t.pending.contains_key(peer) && now < t.pending[peer].created
                + t.cfg.handshake_timeout;
            let right = body.len() >= 8 && body.take(8) == t.pending[peer].bytes;
            let k = t.next_conn_id as u32;
            &&& !stands ==> {
                &&& o.events.len() == 0
                &&& o.table.sessions == t.sessions
                &&& o.table.pending.contains_key(peer)
                &&& o.table.pending[peer] == (Challenge { bytes: random, created: now })
                &&& o.reply == if len >= 28 {
                    Some(receive::answer(0, random))
                } else {
                    None
                }
                &&& o.table.next_conn_id == t.next_conn_id
                &&& o.table.next_sess_id == t.next_sess_id
                &&& o.table.stats.sessions_active == t.stats.sessions_active
            }
            &&& stands && !right ==> {
                &&& o.events.len() == 0
                &&& o.reply is None
                &&& o.table.sessions == t.sessions
                &&& o.table.pending.contains_key(peer)
                &&& o.table.pending[peer] == t.pending[peer]
            }
            &&& stands && right ==> {
                &&& o.events == seq![
                    Event::Open { sess_id: t.next_sess_id, peer, token: body.skip(8) },
                ]
                &&& o.reply == Some(receive::answer(k, random))
                &&& !o.table.pending.contains_key(peer)
                &&& o.table.sessions.contains_key(k)
                &&& o.table.sessions == t.sessions.insert(k, o.table.sessions[k])
                &&& o.table.sessions[k].conn_id == k
                &&& o.table.sessions[k].sess_id == t.next_sess_id
                &&& o.table.sessions[k].peer == peer
                &&& o.table.sessions[k].token == body.skip(8)
                &&& o.table.sessions[k].secret == wire::le_value(random) as u64
                &&& is_new(o.table.sessions[k], now)
                &&& o.table.next_conn_id == t.next_conn_id + 1
                &&& o.table.next_sess_id == t.next_sess_id + 1
                &&& o.table.stats.sessions_active == (t.stats.sessions_active + 1)
                    % 0x1_0000_0000_0000_0000
            }
            &&& forall|p: PeerAddr|
                p != peer ==> {
                    &&& #[trigger] o.table.pending.contains_key(p) <==> t.pending.contains_key(p)
                        && now < t.pending[p].created + t.cfg.handshake_timeout
                    &&& o.table.pending.contains_key(p) ==> o.table.pending[p] == t.pending[p]
                }
            &&& o.table.stats.sessions_handshaking == (t.stats.sessions_handshaking + if !stands {
                1int
            } else {
                0
            }) % 0x1_0000_0000_0000_0000
            &&& o.table.stats.pkt_bad == (t.stats.pkt_bad + if stands && !right {
                1int
            } else {
                0
            }) % 0x1_0000_0000_0000_0000
            &&& o.table.stats == (StatsSnapshot {
                sessions_active: o.table.stats.sessions_active,
                sessions_handshaking: o.table.stats.sessions_handshaking,
                pkt_bad: o.table.stats.pkt_bad,
                ..t.stats
            })
            &&& o.table.cfg == t.cfg
        }),
{
    challenges_stand_for_a_while(t.pending, now, t.cfg.handshake_timeout, peer);
    let o = receive::handshake_received(t, peer, frames, len, random, now);
    assert(o.table.sessions =~= t.sessions || o.table.sessions =~= t.sessions.insert(
        t.next_conn_id as u32,
        o.table.sessions[t.next_conn_id as u32],
    ));
}

/// Whether a session has just begun: active, heard of now, with nothing sent and nothing received.
pub open spec fn is_new(s: SessionData, now: Nanos) -> bool {
    &&& s.state == SessionState::Active
    &&& s.last_rx == now
    &&& s.established == now
    &&& s.send_seq == 0
    &&& s.frag_group_id == 0
    &&& s.budget_kbps is None
    &&& s.bytes_window.len() == 0
    &&& !s.recv_any
    &&& s.ch1_last is None
    &&& s.ch3_seen.len() == 0
    &&& s.retrans_ordered.len() == 0
    &&& s.retrans_unordered.len() == 0
    &&& s.rtt.samples == 0
    &&& s.rtt.srtt == 0
    &&& s.rtt.rttvar == 0
    &&& s.assembly.pending == Map::<u16, fragment::Group>::empty()
    &&& s.assembly.completed.len() == 0
    &&& s.reorder == Map::<u16, (u16, Seq<u8>)>::empty()
    &&& s.ch2_next == Some(0u16)
    &&& s.delivered_max == 0
    &&& s.delivered_seqs.len() == 0
}

/// A datagram that is flagged as a handshake is dealt with as one, whatever connection it names;
/// one without a frame is of no use.
pub proof fn handshakes_are_told_apart(
    t: TableData,
    peer: PeerAddr,
    data: Seq<u8>,
    random: Seq<u8>,
    now: Nanos,
    h: DatagramHeader,
    frames: Seq<FrameView>,
)
    requires
        datagram::parse(data) == Ok::<(DatagramHeader, Seq<FrameView>), ProtocolError>((h, frames)),
        h.flags & 4 != 0,
    ensures
        ({
            let o = receive::data_received(t, peer, data, random, now);
            let counted = StatsSnapshot {
                pkt_in: ((t.stats.pkt_in + 1) % 0x1_0000_0000_0000_0000) as u64,
                ..t.stats
            };
            let u = TableData { stats: counted, ..t };
            &&& frames.len() == 0 ==> o == receive::dropped(u)
            &&& frames.len() > 0 ==> o == receive::handshake_received(
                u,
                peer,
                frames,
                data.len(),
                random,
                now,
            )
        }),
{
}

} // verus!
