//! What sending a message promises.

use vstd::prelude::*;

use crate::addr::PeerAddr;
use crate::error::{Error, ProtocolError};
use crate::outside;
use crate::protocol::datagram::{self, DatagramHeader, FrameView};
use crate::protocol::types::{Nanos, CH_RELIABLE_ORDERED};
use crate::reliable::fragment::{self, Fragment, FRAGMENT_THRESHOLD};
use crate::reliable::retransmit::Pending;
use crate::reliable::serial;
use crate::session::peer::{self, SessionData, SessionState};
use crate::session::seal;
use crate::session::table::laws;
use crate::session::table::plan;
use crate::session::table::send;
use crate::session::table::{self, SessionTableConfig, TableData};
use crate::wire;

verus! {

/// A session is found by its id if and only if it is there, and then it is the one.
pub proof fn sessions_are_found_by_id(t: TableData, sess_id: u64, k: u32)
    requires
        table::table_wf(t),
    ensures
        send::conn_of(t, sess_id) == Some(k) <==> t.sessions.contains_key(k)
            && t.sessions[k].sess_id == sess_id,
        send::conn_of(t, sess_id) is None <==> forall|j: u32| #[trigger]
            t.sessions.contains_key(j) ==> t.sessions[j].sess_id != sess_id,
{
    if t.sessions.contains_key(k) && t.sessions[k].sess_id == sess_id {
        send::conn_is_unique(t, sess_id, k);
    }
    if send::conn_of(t, sess_id) is Some {
        let j = send::conn_of(t, sess_id)->0;
        assert(send::is_conn_of(t, sess_id, j));
    } else {
        assert forall|j: u32| #[trigger] t.sessions.contains_key(j) implies t.sessions[j].sess_id
            != sess_id by {
            assert(!send::is_conn_of(t, sess_id, j));
        }
    }
}

/// Piece `i` of a long payload is what stands from the 1100 times `i`-th byte on.
proof fn piece_at(payload: Seq<u8>, i: int)
    requires
        0 <= i < fragment::pieces(payload, FRAGMENT_THRESHOLD as nat).len(),
    ensures
        ({
            let p = fragment::pieces(payload, FRAGMENT_THRESHOLD as nat);
            &&& p.len() == (payload.len() + 1099) / 1100
            &&& p[i] == payload.subrange(
                1100 * i,
                if 1100 * i + 1100 <= payload.len() {
                    1100 * i + 1100
                } else {
                    payload.len() as int
                },
            )
        }),
    decreases payload.len(),
{
    let p = fragment::pieces(payload, FRAGMENT_THRESHOLD as nat);
    if payload.len() <= FRAGMENT_THRESHOLD {
        assert(p[0] =~= payload.subrange(0, payload.len() as int));
    } else {
        let rest = payload.skip(1100);
        let q = fragment::pieces(rest, FRAGMENT_THRESHOLD as nat);
        assert(q.len() > 0);
        if i == 0 {
            piece_at(rest, 0);
            assert(payload.take(1100) =~= payload.subrange(0, 1100));
        } else {
            piece_at(rest, i - 1);
            assert(p[i] == q[i - 1]);
            assert(p[i] =~= payload.subrange(
                1100 * i,
                if 1100 * i + 1100 <= payload.len() {
                    1100 * i + 1100
                } else {
                    payload.len() as int
                },
            ));
        }
    }
}

/// Whether a message goes out in fragments.
pub open spec fn in_fragments(ch: u8, payload: Seq<u8>) -> bool {
    ch == 2 && payload.len() > 1100
}

/// How many datagrams a message takes.
pub open spec fn parts_of(ch: u8, payload: Seq<u8>) -> int {
    if in_fragments(ch, payload) {
        (payload.len() + 1099) as int / 1100
    } else {
        1
    }
}

/// What a datagram holds apart from its HMAC.
pub open spec fn without_hmac(hmac: bool, bytes: Seq<u8>) -> Seq<u8> {
    if hmac {
        bytes.take(bytes.len() - 4)
    } else {
        bytes
    }
}

/// What a message is made into: every datagram goes to the session's peer, ends in the first four
/// bytes of the HMAC-SHA256 of what comes before if there is an HMAC, names the session's
/// connection, has the next sequence number, and holds one frame on the channel and with the id of
/// the message. The bodies are the payload, or the fragments of it in order, each with 1100 bytes
/// of it, but for the last.
pub proof fn messages_go_out_as_they_are(
    t: TableData,
    sess_id: u64,
    k: u32,
    ch: u8,
    msg_id: u16,
    payload: Seq<u8>,
    now: Nanos,
    i: int,
)
    requires
        table::table_wf(t),
        send::is_conn_of(t, sess_id, k),
        send::packed_out(t, sess_id, ch, msg_id, payload, now).1 is Ok,
        0 <= i < send::packed_out(t, sess_id, ch, msg_id, payload, now).1->Ok_0.len(),
    ensures
        ({
            let s = t.sessions[k];
            let out = send::packed_out(t, sess_id, ch, msg_id, payload, now).1->Ok_0;
            let hmac = t.cfg.enable_hmac;
            let data = without_hmac(hmac, out[i].0);
            &&& out.len() == parts_of(ch, payload)
            &&& out[i].1 == s.peer
            &&& hmac ==> out[i].0 == data + Seq::new(
                4,
                |j: int| outside::hmac_sha256_of(wire::le_bytes(s.secret as nat, 8), data)[j],
            )
            &&& datagram::parse(data) matches Ok((h, frames)) && {
                &&& h.version == 1
                &&& h.conn_id == k
                &&& h.seq == (s.send_seq + i) % 0x1_0000
                &&& h.ack == peer::ack_of(s)
                &&& h.ack_bits == peer::ack_bits_of(s)
                &&& h.flags == (if hmac {
                    16int
                } else {
                    0
                }) + (if in_fragments(ch, payload) {
                    1int
                } else {
                    0
                })
                &&& frames.len() == 1
                &&& frames[0].ch == ch
                &&& frames[0].msg_id == msg_id
                &&& !in_fragments(ch, payload) ==> frames[0].body == payload
                &&& in_fragments(ch, payload) ==> fragment::fragment_of(frames[0].body) == Ok::<
                    Fragment,
                    ProtocolError,
                >(
                    Fragment {
                        group: s.frag_group_id,
                        first_seq: s.send_seq,
                        frag_no: i as u8,
                        total: out.len() as u8,
                        chunk: payload.subrange(
                            1100 * i,
                            if 1100 * i + 1100 <= payload.len() {
                                1100 * i + 1100
                            } else {
                                payload.len() as int
                            },
                        ),
                    },
                )
            }
        }),
{
    let s = t.sessions[k];
    send::conn_is_unique(t, sess_id, k);
    let done = send::sent(t.cfg, s, ch, msg_id, payload, now);
    assert(done is Done);
    sealed_as_written(t.cfg, s, ch, msg_id, payload, now, i);
    header_as_written(t.cfg, s, ch, payload, i);
    if send::is_split(ch, payload) {
        fragment_as_written(t.cfg, s, msg_id, payload, now, i);
    }
}

/// What stands in one of the datagrams of a message.
proof fn sealed_as_written(
    cfg: SessionTableConfig,
    s: SessionData,
    ch: u8,
    msg_id: u16,
    payload: Seq<u8>,
    now: Nanos,
    i: int,
)
    requires
        send::sent(cfg, s, ch, msg_id, payload, now) is Done,
        0 <= i < send::sent(cfg, s, ch, msg_id, payload, now)->datagrams.len(),
    ensures
        ({
            let bytes = send::sent(cfg, s, ch, msg_id, payload, now)->datagrams[i];
            let data = without_hmac(cfg.enable_hmac, bytes);
            &&& cfg.enable_hmac ==> bytes == data + Seq::new(
                4,
                |j: int| outside::hmac_sha256_of(wire::le_bytes(s.secret as nat, 8), data)[j],
            )
            &&& datagram::parse(data) == Ok::<(DatagramHeader, Seq<FrameView>), ProtocolError>(
                (
                    laws::sent_header(cfg, s, ch, payload, i),
                    seq![laws::sent_frame(s, ch, msg_id, payload, i)],
                ),
            )
        }),
{
    laws::sent_datagrams_are_read(cfg, s, ch, msg_id, payload, now, i);
    let bytes = send::sent(cfg, s, ch, msg_id, payload, now)->datagrams[i];
    if cfg.enable_hmac {
        let data = bytes.take(bytes.len() - 4);
        let tag = outside::hmac_sha256_of(wire::le_bytes(s.secret as nat, 8), data);
        assert(seal::hmac4_of(seal::key_of(s.secret), data) =~= Seq::new(4, |j: int| tag[j]));
        assert(laws::unsealed(cfg, s.secret, bytes) == Some(data));
        assert(bytes.len() >= 4) by {
            serial::seq_plus_circle(s.send_seq);
            let h = laws::sent_header(cfg, s, ch, payload, i);
            let f = laws::sent_frame(s, ch, msg_id, payload, i);
            let inner = datagram::datagram_bytes(h, seq![f]);
            seal::open_inverts_seal(s.secret, inner);
            assert(bytes == seal::sealed(s.secret, inner));
        }
        assert(bytes =~= data + bytes.skip(bytes.len() - 4));
    }
}

/// The header of one of the datagrams of a message.
proof fn header_as_written(
    cfg: SessionTableConfig,
    s: SessionData,
    ch: u8,
    payload: Seq<u8>,
    i: int,
)
    ensures
        ({
            let h = laws::sent_header(cfg, s, ch, payload, i);
            &&& h.version == 1
            &&& h.conn_id == s.conn_id
            &&& h.seq == (s.send_seq + i) % 0x1_0000
            &&& h.ack == peer::ack_of(s)
            &&& h.ack_bits == peer::ack_bits_of(s)
            &&& h.flags == (if cfg.enable_hmac {
                16int
            } else {
                0
            }) + (if in_fragments(ch, payload) {
                1int
            } else {
                0
            })
        }),
{
    assert(1u8 | 16u8 == 17u8) by (bit_vector);
    assert(1u8 | 0u8 == 1u8) by (bit_vector);
}

/// The body of one of the fragments of a message.
proof fn fragment_as_written(
    cfg: SessionTableConfig,
    s: SessionData,
    msg_id: u16,
    payload: Seq<u8>,
    now: Nanos,
    i: int,
)
    requires
        send::is_split(CH_RELIABLE_ORDERED, payload),
        send::sent(cfg, s, CH_RELIABLE_ORDERED, msg_id, payload, now) is Done,
        0 <= i < send::sent(cfg, s, CH_RELIABLE_ORDERED, msg_id, payload, now)->datagrams.len(),
    ensures
        ({
            let n = send::sent(cfg, s, CH_RELIABLE_ORDERED, msg_id, payload, now)->datagrams.len();
            let f = laws::sent_frame(s, CH_RELIABLE_ORDERED, msg_id, payload, i);
            &&& n == (payload.len() + 1099) / 1100
            &&& fragment::fragment_of(f.body) == Ok::<Fragment, ProtocolError>(
                Fragment {
                    group: s.frag_group_id,
                    first_seq: s.send_seq,
                    frag_no: i as u8,
                    total: n as u8,
                    chunk: payload.subrange(
                        1100 * i,
                        if 1100 * i + 1100 <= payload.len() {
                            1100 * i + 1100
                        } else {
                            payload.len() as int
                        },
                    ),
                },
            )
        }),
{
    let p = fragment::pieces(payload, FRAGMENT_THRESHOLD as nat);
    piece_at(payload, i);
    assert(0 < p.len() <= 64);
    let x = Fragment {
        group: s.frag_group_id,
        first_seq: s.send_seq,
        frag_no: i as u8,
        total: p.len() as u8,
        chunk: p[i],
    };
    fragment::decode_inverts_encode(x);
}

/// Whether `is` is a queue with `n` packets more behind it than `was`, with the numbers from
/// `first` on, sent at `now`, and with the bytes that went out.
pub open spec fn waits_too(
    was: Seq<Pending>,
    is: Seq<Pending>,
    out: Seq<(Seq<u8>, PeerAddr)>,
    first: u16,
    now: Nanos,
) -> bool {
    &&& is.len() == was.len() + out.len()
    &&& forall|j: int| 0 <= j < was.len() ==> #[trigger] is[j] == was[j]
    &&& forall|j: int|
        0 <= j < out.len() ==> (#[trigger] is[was.len() + j]) == (Pending {
            seq: ((first + j) % 0x1_0000) as u16,
            sent_at: now,
            datagram: out[j].0,
        })
}

/// What a message that goes out leaves behind: its sequence numbers are used up; on channels 2 and
/// 3 its datagrams wait in the queue of their channel; on the others nothing waits. The counts of
/// datagrams and bytes go up. Nothing else changes.
pub proof fn sending_uses_up_numbers_and_waits(
    t: TableData,
    sess_id: u64,
    k: u32,
    ch: u8,
    msg_id: u16,
    payload: Seq<u8>,
    now: Nanos,
)
    requires
        table::table_wf(t),
        send::is_conn_of(t, sess_id, k),
        send::packed_out(t, sess_id, ch, msg_id, payload, now).1 is Ok,
    ensures
        ({
            let s = t.sessions[k];
            let (u, r) = send::packed_out(t, sess_id, ch, msg_id, payload, now);
            let out = r->Ok_0;
            let v = u.sessions[k];
            &&& u.sessions.contains_key(k)
            &&& v.send_seq == (s.send_seq + out.len()) % 0x1_0000
            &&& in_fragments(ch, payload) ==> v.frag_group_id == (s.frag_group_id + 1) % 0x1_0000
            &&& !in_fragments(ch, payload) ==> v.frag_group_id == s.frag_group_id
            &&& if ch == 2 {
                waits_too(s.retrans_ordered, v.retrans_ordered, out, s.send_seq, now)
            } else {
                v.retrans_ordered == s.retrans_ordered
            }
            &&& if ch == 3 {
                waits_too(s.retrans_unordered, v.retrans_unordered, out, s.send_seq, now)
            } else {
                v.retrans_unordered == s.retrans_unordered
            }
            &&& v == (SessionData {
                send_seq: v.send_seq,
                frag_group_id: v.frag_group_id,
                retrans_ordered: v.retrans_ordered,
                retrans_unordered: v.retrans_unordered,
                ..s
            })
            &&& forall|j: u32| j != k ==> #[trigger] u.sessions.contains_key(j)
                == t.sessions.contains_key(j) && u.sessions[j] == t.sessions[j]
            &&& u == (TableData { sessions: u.sessions, stats: u.stats, ..t })
            &&& u.stats.pkt_out == (t.stats.pkt_out + out.len()) % 0x1_0000_0000_0000_0000
            &&& u.stats == (crate::stats::StatsSnapshot {
                pkt_out: u.stats.pkt_out,
                pkt_bytes_out: u.stats.pkt_bytes_out,
                ..t.stats
            })
        }),
{
    let s = t.sessions[k];
    send::conn_is_unique(t, sess_id, k);
    serial::seq_plus_circle(s.send_seq);
    let (u, r) = send::packed_out(t, sess_id, ch, msg_id, payload, now);
    let out = r->Ok_0;
    let v = u.sessions[k];
    if ch == 2 || ch == 3 {
        laws::reliable_messages_wait(t.cfg, s, ch, msg_id, payload, now);
    }
    if ch == 2 {
        assert(waits_too(s.retrans_ordered, v.retrans_ordered, out, s.send_seq, now));
    }
    if ch == 3 {
        assert(waits_too(s.retrans_unordered, v.retrans_unordered, out, s.send_seq, now));
    }
    assert(out.len() <= 64) by {
        if !send::is_split(ch, payload) {
            assert(out.len() == 1);
        }
    }
}

/// The table once one sequence number of a session was used up, and one group if `group` says so.
pub open spec fn used_up(t: TableData, k: u32, group: bool) -> TableData {
    let s = t.sessions[k];
    TableData {
        sessions: t.sessions.insert(
            k,
            SessionData {
                send_seq: ((s.send_seq + 1) % 0x1_0000) as u16,
                frag_group_id: if group {
                    ((s.frag_group_id + 1) % 0x1_0000) as u16
                } else {
                    s.frag_group_id
                },
                ..s
            },
        ),
        ..t
    }
}

/// When a message can be sent, and what is answered when it cannot: a channel above 3, a session
/// that is not there or not active, an id above 4095, a datagram longer than 1200 bytes with its
/// HMAC, or too many packets that wait. Only the last ends the session; the two before it use up a
/// number, and the others change nothing.
pub proof fn messages_are_refused_for_a_reason(
    t: TableData,
    sess_id: u64,
    ch: u8,
    msg_id: u16,
    payload: Seq<u8>,
    now: Nanos,
)
    requires
        table::table_wf(t),
        payload.len() <= usize::MAX - 24,
    ensures
        ({
            let (u, r) = send::packed_out(t, sess_id, ch, msg_id, payload, now);
            let k = send::conn_of(t, sess_id)->0;
            let s = t.sessions[k];
            let len = 20 + payload.len();
            let sealed = len + if t.cfg.enable_hmac {
                4int
            } else {
                0
            };
            let n = parts_of(ch, payload);
            let full = ch == 2 && s.retrans_ordered.len() + n > 64 || ch == 3
                && s.retrans_unordered.len() >= 64;
            if ch > 3 {
                u == t && r == Err::<Seq<(Seq<u8>, PeerAddr)>, Error>(
                    Error::Protocol(ProtocolError::BadChannel { ch }),
                )
            } else if send::conn_of(t, sess_id) is None || s.state != SessionState::Active {
                u == t && r == Err::<Seq<(Seq<u8>, PeerAddr)>, Error>(
                    Error::SessionNotFound(sess_id),
                )
            } else if msg_id > 4095 {
                &&& r == Err::<Seq<(Seq<u8>, PeerAddr)>, Error>(
                    Error::Protocol(ProtocolError::BadMsgId { msg_id }),
                )
                &&& u == used_up(t, k, in_fragments(ch, payload))
            } else if !in_fragments(ch, payload) && sealed > 1200 {
                &&& r == Err::<Seq<(Seq<u8>, PeerAddr)>, Error>(
                    Error::Protocol(
                        ProtocolError::DatagramOverMtu {
                            len: if len > 1200 {
                                len as usize
                            } else {
                                sealed as usize
                            },
                        },
                    ),
                )
                &&& u == used_up(t, k, in_fragments(ch, payload))
            } else if full {
                &&& r == Err::<Seq<(Seq<u8>, PeerAddr)>, Error>(
                    Error::Protocol(ProtocolError::RetransmitOverflow),
                )
                &&& u.sessions == t.sessions.remove(k)
                &&& u == (TableData { sessions: u.sessions, stats: u.stats, ..t })
                &&& t.stats.sessions_active > 0 ==> u.stats == (crate::stats::StatsSnapshot {
                    sessions_active: (t.stats.sessions_active - 1) as u64,
                    ..t.stats
                })
            } else {
                r is Ok
            }
        }),
{
    if ch <= 3 && send::conn_of(t, sess_id) is Some {
        let k = send::conn_of(t, sess_id)->0;
        assert(send::is_conn_of(t, sess_id, k));
        let s = t.sessions[k];
        let f = FrameView { ch, msg_id, body: payload };
        let h = send::out_header(t.cfg, s, s.send_seq, false);
        reveal_with_fuel(datagram::frames_fault, 2);
        assert(seq![f].skip(1) =~= Seq::<FrameView>::empty());
        if datagram::encode_fault(h, seq![f]) is None {
            send::one_frame_fits(h, f);
        }
        if send::is_split(ch, payload) {
            assert(fragment::pieces(payload, FRAGMENT_THRESHOLD as nat).len() > 0);
            piece_at(payload, 0);
        }
    }
}

/// A refused message that leaves the session in place takes nothing from it but numbers: what
/// waits, the budget, and all that was received stay as they are, and so do all other sessions.
pub proof fn refused_messages_leave_the_queues(
    t: TableData,
    sess_id: u64,
    ch: u8,
    msg_id: u16,
    payload: Seq<u8>,
    now: Nanos,
    k: u32,
)
    requires
        table::table_wf(t),
        send::packed_out(t, sess_id, ch, msg_id, payload, now).1 is Err,
        t.sessions.contains_key(k),
        send::packed_out(t, sess_id, ch, msg_id, payload, now).0.sessions.contains_key(k),
    ensures
        ({
            let u = send::packed_out(t, sess_id, ch, msg_id, payload, now).0;
            let s = t.sessions[k];
            let v = u.sessions[k];
            &&& v == (SessionData {
                send_seq: v.send_seq,
                frag_group_id: v.frag_group_id,
                ..s
            })
            &&& s.sess_id != sess_id ==> v == s
        }),
{
}

// The budget.

/// The budget that was set last is the budget, whatever it was before: lower, higher, or none at
/// all. Nothing else changes, and nobody else's budget.
pub proof fn the_last_budget_counts(
    t: TableData,
    sess_id: u64,
    k: u32,
    before: u16,
    kbps: u16,
)
    requires
        table::table_wf(t),
    ensures
        send::is_conn_of(t, sess_id, k) ==> send::budget_set(t, sess_id, kbps).sessions[k] == (
        SessionData { budget_kbps: Some(kbps), ..t.sessions[k] }),
        t.sessions.contains_key(k) && t.sessions[k].sess_id != sess_id ==> send::budget_set(
            t,
            sess_id,
            kbps,
        ).sessions[k] == t.sessions[k],
        send::budget_set(t, sess_id, kbps).sessions.dom() == t.sessions.dom(),
        send::budget_set(t, sess_id, kbps) == (TableData {
            sessions: send::budget_set(t, sess_id, kbps).sessions,
            ..t
        }),
        send::budget_set(send::budget_set(t, sess_id, before), sess_id, kbps) == send::budget_set(
            t,
            sess_id,
            kbps,
        ),
{
    match send::conn_of(t, sess_id) {
        Some(c) => {
            assert(send::is_conn_of(t, sess_id, c));
            let s = SessionData { budget_kbps: Some(before), ..t.sessions[c] };
            let u = send::budget_set(t, sess_id, before);
            send::update_keeps_wf(t, c, s);
            assert(send::is_conn_of(u, sess_id, c));
            send::conn_is_unique(u, sess_id, c);
            if send::is_conn_of(t, sess_id, k) {
                send::conn_is_unique(t, sess_id, k);
            }
            assert(send::budget_set(u, sess_id, kbps) =~= send::budget_set(t, sess_id, kbps));
            assert(send::budget_set(t, sess_id, kbps).sessions.dom() =~= t.sessions.dom());
        },
        None => {},
    }
}

/// A budget holds from the moment it is set: a question right after it is answered with yes if and
/// only if what was sent in the second before, under whatever budget, and the bytes asked for are
/// no more than 125 bytes a second for each kilobit of it.
pub proof fn a_budget_holds_at_once(
    t: TableData,
    sess_id: u64,
    k: u32,
    kbps: u16,
    bytes: u64,
    now: Nanos,
)
    requires
        table::table_wf(t),
        send::is_conn_of(t, sess_id, k),
        table::budget::in_order(t.sessions[k].bytes_window.push((now, bytes))),
    ensures
        send::budget_checked(send::budget_set(t, sess_id, kbps), sess_id, bytes, now).1
            <==> table::budget::lately(t.sessions[k].bytes_window, now) + bytes <= kbps * 125,
{
    let s = SessionData { budget_kbps: Some(kbps), ..t.sessions[k] };
    let u = send::budget_set(t, sess_id, kbps);
    let w = t.sessions[k].bytes_window;
    send::conn_is_unique(t, sess_id, k);
    send::update_keeps_wf(t, k, s);
    assert(send::is_conn_of(u, sess_id, k));
    let none = Seq::<(Nanos, u64)>::empty();
    assert(w + none.push((now, bytes)) =~= w.push((now, bytes)));
    assert(w + table::budget::allowed(none, Seq::<bool>::empty()) =~= w);
    table::budget::allowed_iff_the_last_second_fits(u, sess_id, k, none, bytes, now, kbps);
}

/// What is lately is what is less than a second old: an entry counts in full until it is a second
/// old, and then not at all.
pub proof fn lately_is_a_second(w: Seq<(Nanos, u64)>, at: Nanos, bytes: u64, now: Nanos)
    ensures
        now < at + 1_000_000_000 ==> table::budget::lately(w.push((at, bytes)), now)
            == table::budget::lately(w, now) + bytes,
        now >= at + 1_000_000_000 ==> table::budget::lately(w.push((at, bytes)), now)
            == table::budget::lately(w, now),
        table::budget::lately(Seq::empty(), now) == 0,
{
    assert(w.push((at, bytes)).drop_last() =~= w);
}

// Kicking.

/// A session that is kicked is gone, and only that one; kicking somebody who is not there does
/// nothing.
pub proof fn kicks_hit_one_session(t: TableData, sess_id: u64, k: u32)
    requires
        table::table_wf(t),
    ensures
        ({
            let u = send::kicked(t, sess_id);
            &&& u.sessions.contains_key(k) <==> t.sessions.contains_key(k) && t.sessions[k].sess_id
                != sess_id
            &&& u.sessions.contains_key(k) ==> u.sessions[k] == t.sessions[k]
            &&& u == (TableData { sessions: u.sessions, stats: u.stats, ..t })
            &&& send::conn_of(t, sess_id) is None ==> u == t
            &&& send::conn_of(t, sess_id) is Some && t.stats.sessions_active > 0
                ==> u.stats.sessions_active == t.stats.sessions_active - 1
        }),
{
    sessions_are_found_by_id(t, sess_id, k);
    if send::conn_of(t, sess_id) is Some {
        let j = send::conn_of(t, sess_id)->0;
        assert(send::is_conn_of(t, sess_id, j));
    }
}

/// The bytes that went out are counted, HMAC and all.
pub proof fn sent_bytes_are_counted(
    t: TableData,
    sess_id: u64,
    k: u32,
    ch: u8,
    msg_id: u16,
    payload: Seq<u8>,
    now: Nanos,
)
    requires
        table::table_wf(t),
        send::is_conn_of(t, sess_id, k),
        send::packed_out(t, sess_id, ch, msg_id, payload, now).1 is Ok,
    ensures
        ({
            let (u, r) = send::packed_out(t, sess_id, ch, msg_id, payload, now);
            let hmac = if t.cfg.enable_hmac {
                4int
            } else {
                0
            };
            let bytes = payload.len() + if in_fragments(ch, payload) {
                (26 + hmac) * parts_of(ch, payload)
            } else {
                20 + hmac
            };
            &&& send::total_len(r->Ok_0) == bytes
            &&& u.stats.pkt_bytes_out == (t.stats.pkt_bytes_out + bytes) % 0x1_0000_0000_0000_0000
        }),
{
    let s = t.sessions[k];
    send::conn_is_unique(t, sess_id, k);
    let done = send::sent(t.cfg, s, ch, msg_id, payload, now);
    assert(done is Done);
    if send::is_split(ch, payload) {
        plan::fragments_take(t.cfg, s, msg_id, payload);
        assert(fragment::pieces(payload, FRAGMENT_THRESHOLD as nat).len() > 0);
        piece_at(payload, 0);
        assert(payload.len() <= 1100 * 64);
    } else {
        plan::whole_takes(t.cfg, s, FrameView { ch, msg_id, body: payload });
        send::one_frame_fits(
            send::out_header(t.cfg, s, s.send_seq, false),
            FrameView { ch, msg_id, body: payload },
        );
    }
}

/// How many bytes a message takes: what is in front of it and, if there is one, the HMAC behind it,
/// once for each datagram, and the payload.
pub open spec fn bytes_of(hmac: bool, ch: u8, payload: Seq<u8>) -> int {
    let tail = if hmac {
        4int
    } else {
        0
    };
    payload.len() + if in_fragments(ch, payload) {
        (26 + tail) * parts_of(ch, payload)
    } else {
        20 + tail
    }
}

/// The bytes of a message that is not huge fit in 64 bits.
pub proof fn bytes_are_few(hmac: bool, ch: u8, payload: Seq<u8>)
    requires
        payload.len() < 0x1_0000_0000,
    ensures
        0 <= bytes_of(hmac, ch, payload) < 0x40_0000_0000,
{
    let n = parts_of(ch, payload);
    assert(0 <= n < 0x1_0000_0000);
    assert(26 * n <= 30 * n < 30 * 0x1_0000_0000);
}

/// What a message to an active session will take is known beforehand from its size alone; what
/// cannot be sent takes nothing.
pub proof fn plans_go_by_the_size(
    t: TableData,
    sess_id: u64,
    k: u32,
    ch: u8,
    msg_id: u16,
    payload: Seq<u8>,
)
    requires
        table::table_wf(t),
        send::is_conn_of(t, sess_id, k),
    ensures
        ({
            let bytes = bytes_of(t.cfg.enable_hmac, ch, payload);
            let can = ch <= 3 && t.sessions[k].state == SessionState::Active && msg_id <= 4095 && (
            in_fragments(ch, payload) || bytes <= 1200);
            &&& can ==> plan::planned(t, sess_id, ch, msg_id, payload) == Some(bytes as nat)
            &&& !can ==> plan::planned(t, sess_id, ch, msg_id, payload) is None
        }),
{
    let s = t.sessions[k];
    send::conn_is_unique(t, sess_id, k);
    if ch <= 3 {
        if send::is_split(ch, payload) {
            if msg_id <= 4095 {
                plan::fragments_take(t.cfg, s, msg_id, payload);
            }
        } else {
            let f = FrameView { ch, msg_id, body: payload };
            plan::whole_fault(t.cfg, s, f);
            if plan::message_fault(t.cfg, s, ch, msg_id, payload) is None {
                plan::whole_takes(t.cfg, s, f);
            }
        }
    }
}

} // verus!
