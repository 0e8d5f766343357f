//! The session table: handshakes, channels, life cycle, sending.

use soup_engine::addr::PeerAddr;
use soup_engine::error::{Error, ProtocolError};
use soup_engine::protocol::datagram::{
    decode, encode, handshake_header, DatagramHeader, FrameRef,
};
use soup_engine::protocol::types::{
    FLAG_FRAGMENT, FLAG_HANDSHAKE, FLAG_HMAC, FLAG_PURE_ACK, HANDSHAKE_TIMEOUT, IDLE_GRACE,
    MILLISECOND, Nanos, RECONNECT_GRACE, SECOND, VERSION,
};
use soup_engine::reliable::fragment::decode_fragment;
use soup_engine::session::event::{CLOSE_GRACE_TIMEOUT, CLOSE_SHUTDOWN};
use soup_engine::session::peer::{record_seq, seq_lt};
use soup_engine::session::{hmac4, Session, SessionEvent, SessionTable, SessionTableConfig};

const T0: Nanos = 1_000_000_000_000;

const PEER: PeerAddr = PeerAddr::V4 { ip: 0x7F00_0001, port: 4000 };

const SECRET: [u8; 8] = [1, 2, 3, 4, 5, 6, 7, 8];

fn hello_packet() -> Vec<u8> {
    let mut buf = Vec::new();
    encode(&handshake_header(), &[FrameRef::new(0, 0, b"test-token")], &mut buf).unwrap();
    buf
}

fn answer_packet(challenge: &[u8]) -> Vec<u8> {
    let mut body = challenge.to_vec();
    body.extend_from_slice(b"test-token");
    let mut buf = Vec::new();
    encode(&handshake_header(), &[FrameRef::new(0, 0, &body)], &mut buf).unwrap();
    buf
}

/// Opens a session from `peer`, with a known secret; returns its connection id and session id.
fn open_from(t: &mut SessionTable, peer: PeerAddr, now: Nanos) -> (u32, u64) {
    let r = t.handle_datagram_with(peer, &hello_packet(), [9; 8], now);
    assert!(r.events.is_empty());
    let reply = r.reply.unwrap();
    let (h, frames) = decode(&reply).unwrap();
    assert_eq!(h.flags, FLAG_HANDSHAKE);
    assert_eq!(frames[0].body, [9; 8]);
    let r = t.handle_datagram_with(peer, &answer_packet(frames[0].body), SECRET, now);
    let reply = r.reply.unwrap();
    let (h, frames) = decode(&reply).unwrap();
    assert_ne!(h.conn_id, 0);
    assert_eq!(frames[0].body, SECRET);
    match &r.events[..] {
        [SessionEvent::Open { sess_id, peer: from, token }] => {
            assert_eq!(*from, peer);
            assert_eq!(token, b"test-token");
            (h.conn_id, *sess_id)
        },
        other => panic!("{other:?}"),
    }
}

fn open(t: &mut SessionTable) -> (u32, u64) {
    open_from(t, PEER, T0)
}

fn packet_with(header: &DatagramHeader, frames: &[FrameRef]) -> Vec<u8> {
    let mut header = *header;
    header.flags |= FLAG_HMAC;
    let mut out = Vec::new();
    encode(&header, frames, &mut out).unwrap();
    let mac = hmac4(&SECRET, &out);
    out.extend_from_slice(&mac);
    out
}

fn packet(conn_id: u32, seq: u16, ch: u8, msg_id: u16, body: &[u8]) -> Vec<u8> {
    let h = DatagramHeader { version: VERSION, flags: 0, conn_id, seq, ack: 0xFFFF, ack_bits: 0 };
    packet_with(&h, &[FrameRef::new(ch, msg_id, body)])
}

fn ack_packet(conn_id: u32, ack: u16, ack_bits: u32) -> Vec<u8> {
    let h = DatagramHeader { version: VERSION, flags: FLAG_PURE_ACK, conn_id, seq: 0, ack, ack_bits };
    let mut out = Vec::new();
    encode(&h, &[], &mut out).unwrap();
    out
}

/// The message ids of the data events.
fn ids(events: &[SessionEvent]) -> Vec<u16> {
    events
        .iter()
        .filter_map(|e| match e {
            SessionEvent::Data { msg_id, .. } => Some(*msg_id),
            _ => None,
        })
        .collect()
}

fn session_with_rtt(ms: u16) -> Session {
    let mut s = Session::new(1, 1, PeerAddr::V4 { ip: 0x7F00_0001, port: 1 }, 0, Vec::new(), T0);
    for _ in 0..5 {
        s.rtt.update((ms as f64 * MILLISECOND as f64) as Nanos);
    }
    s
}

#[test]
fn adaptive_idle_grace_by_rtt() {
    let table = SessionTable::new(SessionTableConfig::default());
    let low = table.idle_grace_for(&session_with_rtt(1));
    assert_eq!(low, 1500 * MILLISECOND, "a short round trip gives the lower bound");
    let mid = table.idle_grace_for(&session_with_rtt(100));
    assert_eq!(mid, 3 * SECOND);
    let high = table.idle_grace_for(&session_with_rtt(500));
    assert_eq!(high, 5 * SECOND);
}

#[test]
fn adaptive_reconnect_grace_by_rtt() {
    let table = SessionTable::new(SessionTableConfig::default());
    assert_eq!(table.reconnect_grace_for(&session_with_rtt(1)), 5 * SECOND);
    assert_eq!(table.reconnect_grace_for(&session_with_rtt(100)), 12 * SECOND);
    assert_eq!(table.reconnect_grace_for(&session_with_rtt(500)), 20 * SECOND);
}

#[test]
fn adaptive_falls_back_to_fixed() {
    let mut cfg = SessionTableConfig::default();
    cfg.dynamic_timeouts = false;
    let table = SessionTable::new(cfg);
    let s = session_with_rtt(1);
    assert_eq!(table.idle_grace_for(&s), IDLE_GRACE);
    assert_eq!(table.reconnect_grace_for(&s), RECONNECT_GRACE);
}

#[test]
fn unsampled_rtt_uses_conservative_max() {
    let table = SessionTable::new(SessionTableConfig::default());
    let s = session_with_rtt(0);
    assert_eq!(table.idle_grace_for(&s), 5 * SECOND);
    assert_eq!(table.reconnect_grace_for(&s), 20 * SECOND);
}

#[test]
fn handshakes_open_sessions() {
    let mut t = SessionTable::new(Default::default());
    assert_eq!(open(&mut t), (1, 1));
    assert_eq!(t.active_count(), 1);
    assert!(t.is_active(1));
    let other = PeerAddr::V4 { ip: 0x7F00_0001, port: 4001 };
    assert_eq!(open_from(&mut t, other, T0), (2, 2));
    assert_eq!(t.lookup(2).unwrap().peer, other);
    assert!(t.has_ids_left());
    let s = t.stats.snapshot();
    assert_eq!(s.sessions_active, 2);
    assert_eq!(s.sessions_handshaking, 2);
}

#[test]
fn challenges_are_random() {
    let mut t = SessionTable::new(Default::default());
    let a = t.handle_datagram(PEER, &hello_packet(), T0).reply.unwrap();
    let other = PeerAddr::V4 { ip: 0x7F00_0001, port: 4001 };
    let b = t.handle_datagram(other, &hello_packet(), T0).reply.unwrap();
    assert_ne!(a, b);
    assert_eq!(a.len(), 28);
    assert!(a.len() <= hello_packet().len());
    // A request shorter than the answer gets none.
    let mut bare = Vec::new();
    encode(&handshake_header(), &[FrameRef::new(0, 0, b"")], &mut bare).unwrap();
    let third = PeerAddr::V4 { ip: 0x7F00_0001, port: 4002 };
    assert!(t.handle_datagram(third, &bare, T0).reply.is_none());
}

#[test]
fn wrong_answers_open_no_session() {
    let mut t = SessionTable::new(Default::default());
    t.handle_datagram_with(PEER, &hello_packet(), [9; 8], T0);
    let r = t.handle_datagram_with(PEER, &answer_packet(&[8; 8]), SECRET, T0);
    assert!(r.events.is_empty() && r.reply.is_none());
    assert_eq!(t.active_count(), 0);
    // The right answer is still good.
    let r = t.handle_datagram_with(PEER, &answer_packet(&[9; 8]), SECRET, T0);
    assert_eq!(r.events.len(), 1);
}

#[test]
fn late_answers_open_no_session() {
    let mut t = SessionTable::new(Default::default());
    t.handle_datagram_with(PEER, &hello_packet(), [9; 8], T0);
    let later = T0 + HANDSHAKE_TIMEOUT;
    let r = t.handle_datagram_with(PEER, &answer_packet(&[9; 8]), SECRET, later);
    assert!(r.events.is_empty());
    // It is taken for a new first packet.
    assert!(r.reply.is_some());
    assert_eq!(t.active_count(), 0);
}

#[test]
fn garbage_leaves_the_sessions_alone() {
    let mut t = SessionTable::new(Default::default());
    open(&mut t);
    let bad = t.stats.snapshot().pkt_bad;
    let r = t.handle_datagram(PEER, b"garbage", T0);
    assert!(r.events.is_empty() && r.reply.is_none());
    assert_eq!(t.stats.snapshot().pkt_bad, bad + 1);
    assert_eq!(t.active_count(), 1);
}

#[test]
fn forgeries_are_dropped() {
    let mut t = SessionTable::new(Default::default());
    let (c, _) = open(&mut t);
    let mut forged = packet(c, 0, 0, 7, b"move");
    let last = forged.len() - 1;
    forged[last] ^= 1;
    let r = t.handle_datagram(PEER, &forged, T0);
    assert!(r.events.is_empty() && r.reply.is_none());
    let honest = packet(c, 0, 0, 7, b"move");
    let r = t.handle_datagram(PEER, &honest, T0);
    assert_eq!(
        r.events,
        vec![SessionEvent::Data { sess_id: 1, ch: 0, msg_id: 7, payload: b"move".to_vec() }]
    );
}

#[test]
fn unknown_connections_are_dropped() {
    let mut t = SessionTable::new(Default::default());
    open(&mut t);
    let r = t.handle_datagram(PEER, &packet(77, 0, 0, 7, b"move"), T0);
    assert!(r.events.is_empty() && r.reply.is_none());
}

#[test]
fn the_newest_wins_on_the_sequenced_channel() {
    let mut t = SessionTable::new(Default::default());
    let (c, _) = open(&mut t);
    let mut got = Vec::new();
    for (seq, id) in [(3u16, 3u16), (2, 2), (5, 5), (4, 4), (6, 6)] {
        got.extend(ids(&t.handle_datagram(PEER, &packet(c, seq, 1, id, b""), T0).events));
    }
    assert_eq!(got, vec![3, 5, 6]);
}

#[test]
fn the_ordered_channel_delivers_in_order_and_once() {
    let mut t = SessionTable::new(Default::default());
    let (c, _) = open(&mut t);
    let mut got = Vec::new();
    let mut last_reply = None;
    for seq in [1u16, 3, 0, 0, 2, 1, 4] {
        let r = t.handle_datagram(PEER, &packet(c, seq, 2, 100 + seq, b"x"), T0);
        got.extend(ids(&r.events));
        last_reply = r.reply.or(last_reply);
    }
    assert_eq!(got, vec![100, 101, 102, 103, 104]);
    // The acknowledgement says that everything up to 4 is there.
    let reply = last_reply.unwrap();
    let (h, frames) = decode(&reply).unwrap();
    assert_eq!(h.flags & FLAG_PURE_ACK, FLAG_PURE_ACK);
    assert_eq!((h.ack, h.ack_bits), (4, 0));
    assert!(frames.is_empty());
}

#[test]
fn acknowledgements_name_what_is_held() {
    let mut t = SessionTable::new(Default::default());
    let (c, _) = open(&mut t);
    t.handle_datagram(PEER, &packet(c, 0, 2, 100, b"x"), T0);
    let r = t.handle_datagram(PEER, &packet(c, 3, 2, 103, b"x"), T0);
    let reply = r.reply.unwrap();
    let (h, _) = decode(&reply).unwrap();
    // 0 is the last in order; 3 is the third after it.
    assert_eq!((h.ack, h.ack_bits), (0, 0b100));
}

#[test]
fn the_unordered_channel_delivers_once() {
    let mut t = SessionTable::new(Default::default());
    let (c, _) = open(&mut t);
    let mut got = Vec::new();
    for seq in [5u16, 3, 5, 4, 3] {
        got.extend(ids(&t.handle_datagram(PEER, &packet(c, seq, 3, seq, b"x"), T0).events));
    }
    assert_eq!(got, vec![5, 3, 4]);
}

#[test]
fn the_unordered_channel_forgets_in_the_end() {
    let mut t = SessionTable::new(Default::default());
    let (c, _) = open(&mut t);
    for seq in 0..257u16 {
        let r = t.handle_datagram(PEER, &packet(c, seq, 3, seq, b"x"), T0);
        assert_eq!(ids(&r.events), vec![seq]);
    }
    // 1 is among the last 256; 0 is not any more.
    assert!(t.handle_datagram(PEER, &packet(c, 1, 3, 1, b"x"), T0).events.is_empty());
    let r = t.handle_datagram(PEER, &packet(c, 0, 3, 0, b"x"), T0);
    assert_eq!(ids(&r.events), vec![0]);
}

#[test]
fn the_plain_channel_delivers_everything() {
    let mut t = SessionTable::new(Default::default());
    let (c, _) = open(&mut t);
    let mut got = Vec::new();
    for seq in [2u16, 1, 2, 0] {
        got.extend(ids(&t.handle_datagram(PEER, &packet(c, seq, 0, seq, b"x"), T0).events));
    }
    assert_eq!(got, vec![2, 1, 2, 0]);
}

#[test]
fn silence_leads_to_grace_and_then_to_the_end() {
    let mut t = SessionTable::new(Default::default());
    let (_, sid) = open(&mut t);
    assert!(t.maintain(T0 + 4 * SECOND).is_empty());
    assert!(t.is_active(sid));
    // Nothing is closed when the grace period starts.
    assert!(t.maintain(T0 + 5 * SECOND).is_empty());
    assert!(!t.is_active(sid));
    assert_eq!(t.active_count(), 1);
    assert!(t.maintain(T0 + 24 * SECOND).is_empty());
    assert_eq!(
        t.maintain(T0 + 26 * SECOND),
        vec![SessionEvent::Close { sess_id: sid, reason: CLOSE_GRACE_TIMEOUT }]
    );
    assert_eq!(t.active_count(), 0);
    assert!(t.lookup(sid).is_none());
}

#[test]
fn sessions_come_back_from_grace() {
    let mut t = SessionTable::new(Default::default());
    let (c, sid) = open(&mut t);
    t.maintain(T0 + 6 * SECOND);
    assert!(!t.is_active(sid));
    // The packet that wakes the session is used up by that.
    let r = t.handle_datagram(PEER, &packet(c, 1, 1, 7, b"resume-me"), T0 + 7 * SECOND);
    assert_eq!(r.events, vec![SessionEvent::Resume { sess_id: sid, gap_ms: 1000 }]);
    assert!(t.is_active(sid));
}

#[test]
fn sessions_follow_their_client() {
    let mut t = SessionTable::new(Default::default());
    let (c, sid) = open(&mut t);
    let moved = PeerAddr::V4 { ip: 0x0A00_0001, port: 5000 };
    let r = t.handle_datagram(moved, &packet(c, 0, 1, 1, b"after-nat"), T0 + SECOND);
    assert_eq!(
        r.events,
        vec![SessionEvent::Data { sess_id: sid, ch: 1, msg_id: 1, payload: b"after-nat".to_vec() }]
    );
    assert_eq!(t.lookup(sid).unwrap().peer, moved);
    assert_eq!(t.stats.snapshot().nat_rebind, 1);
    let out = t.pack_outbound(sid, 0, 1, b"hi", T0 + SECOND).unwrap();
    assert_eq!(out[0].1, moved);
}

#[test]
fn sent_datagrams_are_sealed_and_read() {
    let mut t = SessionTable::new(Default::default());
    let (c, sid) = open(&mut t);
    let out = t.pack_outbound(sid, 2, 55, b"down", T0).unwrap();
    assert_eq!(out.len(), 1);
    let (bytes, to) = &out[0];
    assert_eq!(*to, PEER);
    let (data, mac) = bytes.split_at(bytes.len() - 4);
    assert_eq!(hmac4(&SECRET, data), mac);
    let (h, frames) = decode(data).unwrap();
    assert_eq!((h.conn_id, h.seq, h.flags), (c, 0, FLAG_HMAC));
    assert_eq!((frames[0].ch, frames[0].msg_id, frames[0].body), (2, 55, b"down".as_slice()));
}

#[test]
fn without_hmac_datagrams_are_bare() {
    let mut cfg = SessionTableConfig::default();
    cfg.enable_hmac = false;
    let mut t = SessionTable::new(cfg);
    let (_, sid) = open(&mut t);
    let out = t.pack_outbound(sid, 0, 55, b"down", T0).unwrap();
    let (h, frames) = decode(&out[0].0).unwrap();
    assert_eq!(h.flags, 0);
    assert_eq!(frames[0].body, b"down");
}

#[test]
fn long_messages_go_out_in_fragments() {
    let mut t = SessionTable::new(Default::default());
    let (_, sid) = open(&mut t);
    let payload: Vec<u8> = (0..3000u32).map(|i| (i % 251) as u8).collect();
    let out = t.pack_outbound(sid, 2, 55, &payload, T0).unwrap();
    let mut whole = Vec::new();
    for (i, (bytes, _)) in out.iter().enumerate() {
        let data = &bytes[..bytes.len() - 4];
        let (h, frames) = decode(data).unwrap();
        assert_eq!(h.flags, FLAG_FRAGMENT | FLAG_HMAC);
        assert_eq!(h.seq, i as u16);
        let (_, first_seq, no, total, chunk) = decode_fragment(frames[0].body).unwrap();
        assert_eq!((first_seq, no as usize, total as usize), (0, i, out.len()));
        whole.extend_from_slice(chunk);
    }
    assert_eq!(whole, payload);
}

#[test]
fn sending_needs_a_live_session_and_a_channel() {
    let mut t = SessionTable::new(Default::default());
    let (_, sid) = open(&mut t);
    assert_eq!(
        t.pack_outbound(sid, 4, 1, b"", T0),
        Err(Error::Protocol(ProtocolError::BadChannel { ch: 4 }))
    );
    assert_eq!(t.pack_outbound(99, 0, 1, b"", T0), Err(Error::SessionNotFound(99)));
    t.maintain(T0 + 6 * SECOND);
    assert_eq!(t.pack_outbound(sid, 0, 1, b"", T0), Err(Error::SessionNotFound(sid)));
}

#[test]
fn reliable_messages_wait_for_acknowledgements() {
    let mut t = SessionTable::new(Default::default());
    let (c, sid) = open(&mut t);
    let sent = t.pack_outbound(sid, 2, 1, b"once", T0).unwrap();
    assert!(t.maintain_reliable(T0 + 100 * MILLISECOND).is_empty());
    // The first timeout is 200 ms.
    let again = t.maintain_reliable(T0 + 200 * MILLISECOND);
    assert_eq!(again, sent);
    assert_eq!(t.stats.snapshot().retransmits, 1);
    t.handle_datagram(PEER, &ack_packet(c, 0, 0), T0 + 300 * MILLISECOND);
    assert!(t.maintain_reliable(T0 + 10 * SECOND).is_empty());
    assert!(t.lookup(sid).unwrap().retrans_ordered.is_empty());
}

#[test]
fn unreliable_messages_are_not_kept() {
    let mut t = SessionTable::new(Default::default());
    let (_, sid) = open(&mut t);
    t.pack_outbound(sid, 0, 1, b"x", T0).unwrap();
    t.pack_outbound(sid, 1, 1, b"x", T0).unwrap();
    assert!(t.maintain_reliable(T0 + 4 * SECOND).is_empty());
}

#[test]
fn a_client_that_never_acknowledges_is_dropped() {
    let mut t = SessionTable::new(Default::default());
    let (_, sid) = open(&mut t);
    for i in 0..64u16 {
        t.pack_outbound(sid, 2, i, b"x", T0).unwrap();
    }
    assert_eq!(
        t.pack_outbound(sid, 2, 64, b"x", T0),
        Err(Error::Protocol(ProtocolError::RetransmitOverflow))
    );
    assert!(t.lookup(sid).is_none());
    assert_eq!(t.active_count(), 0);
}

#[test]
fn kicked_sessions_are_gone() {
    let mut t = SessionTable::new(Default::default());
    let (c, sid) = open(&mut t);
    assert_eq!(t.kick(sid, 2).unwrap().conn_id, c);
    assert!(t.kick(sid, 2).is_none());
    assert_eq!(t.active_count(), 0);
    let r = t.handle_datagram(PEER, &packet(c, 0, 0, 1, b"x"), T0);
    assert!(r.events.is_empty());
}

#[test]
fn budgets_limit_a_second() {
    let mut t = SessionTable::new(Default::default());
    let (_, sid) = open(&mut t);
    // Without a budget everything passes.
    assert!(t.check_budget(sid, 1_000_000, T0));
    // 8 kbit/s are 1000 bytes a second.
    t.set_budget(sid, 8);
    assert!(t.check_budget(sid, 600, T0 + 2 * SECOND));
    assert!(!t.check_budget(sid, 500, T0 + 2 * SECOND));
    assert!(t.check_budget(sid, 400, T0 + 2 * SECOND));
    assert!(t.check_budget(sid, 1000, T0 + 4 * SECOND));
}

#[test]
fn budgets_count_what_was_allowed_in_the_last_second() {
    let mut t = SessionTable::new(Default::default());
    let (_, sid) = open(&mut t);
    t.set_budget(sid, 8);
    // (time in ms, bytes, answer)
    let calls = [
        (0, 400, true),
        (300, 400, true),
        (600, 201, false),
        (600, 200, true),
        (999, 1, false),
        // The first is a second old, and no longer counts.
        (1000, 401, false),
        (1000, 400, true),
        (1299, 1, false),
        (1300, 400, true),
        (1300, 0, true),
        (9000, 1001, false),
        (9000, 1000, true),
    ];
    let mut allowed: Vec<(u64, u64)> = Vec::new();
    for (ms, bytes, answer) in calls {
        let lately: u64 = allowed.iter().filter(|c| ms - c.0 < 1000).map(|c| c.1).sum();
        assert_eq!(lately + bytes <= 1000, answer);
        assert_eq!(t.check_budget(sid, bytes, T0 + ms * MILLISECOND), answer);
        if answer {
            allowed.push((ms, bytes));
        }
    }
    // Who is not there has no limit.
    assert!(t.check_budget(sid + 1, u64::MAX, T0));
}

#[test]
fn sealed_datagrams_fit_the_mtu() {
    let mut t = SessionTable::new(Default::default());
    let (_, sid) = open(&mut t);
    for ch in [0, 1, 3] {
        let out = t.pack_outbound(sid, ch, 5, &[7; 1176], T0).unwrap();
        assert_eq!(out[0].0.len(), 1200);
        for len in [1177, 1180, 1181] {
            let body = vec![7; len];
            let fault = match t.pack_outbound(sid, ch, 5, &body, T0) {
                Err(Error::Protocol(ProtocolError::DatagramOverMtu { len })) => len,
                other => panic!("{other:?}"),
            };
            assert!(fault > 1200);
            assert_eq!(t.planned_bytes(sid, ch, 5, &body), None);
        }
        assert_eq!(t.planned_bytes(sid, ch, 5, &[7; 1176]), Some(1200));
    }
    let cfg = SessionTableConfig { enable_hmac: false, ..Default::default() };
    let mut bare = SessionTable::new(cfg);
    let (_, sid) = open(&mut bare);
    let out = bare.pack_outbound(sid, 1, 5, &[7; 1180], T0).unwrap();
    assert_eq!(out[0].0.len(), 1200);
    assert!(bare.pack_outbound(sid, 1, 5, &[7; 1181], T0).is_err());
}

#[test]
fn plans_come_true_in_bytes() {
    for enable_hmac in [true, false] {
        let cfg = SessionTableConfig { enable_hmac, ..Default::default() };
        let mut t = SessionTable::new(cfg);
        let (_, sid) = open(&mut t);
        for len in [0, 1, 1099, 1100, 1101, 2200, 2201, 5000] {
            let body = vec![3; len];
            let plan = t.planned_bytes(sid, 2, 9, &body).unwrap();
            let out = t.pack_outbound(sid, 2, 9, &body, T0).unwrap();
            assert!(out.iter().all(|d| d.0.len() <= 1200));
            assert_eq!(plan, out.iter().map(|d| d.0.len() as u64).sum::<u64>());
        }
        assert_eq!(t.planned_bytes(sid, 4, 9, b"x"), None);
        assert_eq!(t.planned_bytes(sid, 2, 0x1000, b"x"), None);
        assert_eq!(t.planned_bytes(sid + 1, 2, 9, b"x"), None);
    }
}

#[test]
fn draining_closes_every_session() {
    let mut t = SessionTable::new(Default::default());
    let (_, a) = open(&mut t);
    let (_, b) = open_from(&mut t, PeerAddr::V4 { ip: 1, port: 1 }, T0);
    let mut closed: Vec<(u64, u8)> = t
        .drain()
        .iter()
        .map(|e| match e {
            SessionEvent::Close { sess_id, reason } => (*sess_id, *reason),
            other => panic!("{other:?}"),
        })
        .collect();
    closed.sort();
    assert_eq!(closed, vec![(a, CLOSE_SHUTDOWN), (b, CLOSE_SHUTDOWN)]);
    assert_eq!(t.active_count(), 0);
    assert!(t.drain().is_empty());
}

#[test]
fn every_session_is_visited_once() {
    let mut t = SessionTable::new(Default::default());
    for port in 1..=20u16 {
        open_from(&mut t, PeerAddr::V4 { ip: 1, port }, T0);
    }
    let mut seen = t.for_each_session(|s: &Session| s.sess_id);
    seen.sort();
    assert_eq!(seen, (1..=20).collect::<Vec<u64>>());
}

#[test]
fn the_receive_window_is_recorded() {
    let (mut seq, mut bits) = (10u16, 0u32);
    record_seq(&mut seq, &mut bits, 11);
    assert_eq!((seq, bits), (11, 1));
    record_seq(&mut seq, &mut bits, 14);
    assert_eq!((seq, bits), (14, 0b1100));
    record_seq(&mut seq, &mut bits, 13);
    assert_eq!((seq, bits), (14, 0b1101));
    record_seq(&mut seq, &mut bits, 12);
    assert_eq!((seq, bits), (14, 0b1111));
    record_seq(&mut seq, &mut bits, 100);
    assert_eq!((seq, bits), (100, 0));
    record_seq(&mut seq, &mut bits, 132);
    assert_eq!((seq, bits), (132, 1 << 31));
    let (mut seq, mut bits) = (5u16, 0u32);
    record_seq(&mut seq, &mut bits, 7);
    assert_eq!((seq, bits), (7, 0b10));
    assert!(seq_lt(0xFFFF, 0) && !seq_lt(0, 0xFFFF) && !seq_lt(3, 3));
}

#[test]
fn sessions_know_which_packets_came() {
    let mut t = SessionTable::new(Default::default());
    let (c, sid) = open(&mut t);
    assert!(!t.lookup(sid).unwrap().recv_any);
    t.handle_datagram(PEER, &packet(c, 3, 0, 1, b"x"), T0);
    let s = t.lookup(sid).unwrap();
    assert_eq!((s.recv_any, s.recv_seq, s.recv_bits), (true, 3, 0));
    t.handle_datagram(PEER, &packet(c, 1, 0, 1, b"x"), T0);
    t.handle_datagram(PEER, &packet(c, 5, 0, 1, b"x"), T0);
    let s = t.lookup(sid).unwrap();
    assert_eq!((s.recv_seq, s.recv_bits), (5, 0b1010));
}
