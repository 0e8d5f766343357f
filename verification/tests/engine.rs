//! The engine between its clients and the logic server.

use std::collections::{BTreeMap, HashMap, VecDeque};

use bytes::BytesMut;
use soup_engine::addr::PeerAddr;
use soup_engine::engine::{LOGIC_RECONNECT_INTERVAL, LOGIC_RECONNECT_MAX, OVERLOAD_MIN_INTERVAL};
use soup_engine::error::{Error, ProtocolError};
use soup_engine::protocol::datagram::{
    decode, encode, handshake_header, DatagramHeader, FrameRef,
};
use soup_engine::protocol::frame;
use soup_engine::protocol::frame::Frame;
use soup_engine::protocol::types::{
    CH_RELIABLE_ORDERED, CH_UNRELIABLE_SEQUENCED, CH_UNRELIABLE_UNORDERED, FLAG_FRAGMENT,
    FLAG_HANDSHAKE, FLAG_HMAC, FLAG_PURE_ACK, FRAME_DATA_UP, FRAME_ENGINE_HELLO, FRAME_OVERLOAD,
    FRAME_SEND, FRAME_SESSION_CLOSE, FRAME_SESSION_OPEN, FRAME_SESSION_RESUME,
    FRAME_SESSION_STATS, MILLISECOND, Nanos, SECOND, UP_QUEUE_CAP, VERSION,
};
use soup_engine::session::event::{CLOSE_KICKED, CLOSE_OVERFLOW, CLOSE_SHUTDOWN};
use soup_engine::session::hmac4;
use soup_engine::transport::tcp;
use soup_engine::EngineCore;

const T0: Nanos = 1_000_000_000_000;

const PEER: PeerAddr = PeerAddr::V4 { ip: 0x7F00_0001, port: 4000 };

fn engine() -> EngineCore {
    EngineCore::new(Default::default(), 1, 0, T0)
}

/// An engine whose logic server is connected.
fn online() -> EngineCore {
    let mut e = engine();
    e.on_connected();
    e.on_greeted(T0);
    e
}

fn take_up(e: &mut EngineCore) -> Vec<Frame> {
    let mut out = Vec::new();
    while let Some(f) = e.next_up() {
        out.push(f);
    }
    out
}

/// A client's side of the handshake; returns the connection id and the secret.
fn handshake(e: &mut EngineCore, peer: PeerAddr, now: Nanos) -> (u32, [u8; 8]) {
    let token: &[u8] = b"test-token";
    let mut buf = Vec::new();
    encode(&handshake_header(), &[FrameRef::new(0, 0, token)], &mut buf).unwrap();
    let reply = e.handle_datagram(peer, &buf, now).unwrap();
    let (h, frames) = decode(&reply).unwrap();
    assert_ne!(h.flags & FLAG_HANDSHAKE, 0);
    let mut body = frames[0].body.to_vec();
    body.extend_from_slice(token);
    let mut buf = Vec::new();
    encode(&handshake_header(), &[FrameRef::new(0, 0, &body)], &mut buf).unwrap();
    let reply = e.handle_datagram(peer, &buf, now).unwrap();
    let (h, frames) = decode(&reply).unwrap();
    assert_ne!(h.conn_id, 0);
    let mut secret = [0u8; 8];
    secret.copy_from_slice(frames[0].body);
    (h.conn_id, secret)
}

fn build_packet(header: &DatagramHeader, frames: &[FrameRef], secret: &[u8; 8]) -> Vec<u8> {
    let mut header = *header;
    header.flags |= FLAG_HMAC;
    let mut out = Vec::new();
    encode(&header, frames, &mut out).unwrap();
    let mac = hmac4(secret, &out);
    out.extend_from_slice(&mac);
    out
}

fn verify_strip<'a>(buf: &'a [u8], secret: &[u8; 8]) -> Option<&'a [u8]> {
    if buf[3] & FLAG_HMAC == 0 {
        return Some(buf);
    }
    let (data, mac) = buf.split_at(buf.len() - 4);
    if hmac4(secret, data) == mac {
        Some(data)
    } else {
        None
    }
}

fn header(conn_id: u32, seq: u16) -> DatagramHeader {
    DatagramHeader { version: VERSION, flags: 0, conn_id, seq, ack: 0, ack_bits: 0 }
}

/// What the logic server does: greets, and echoes data.
fn echo_logic(e: &mut EngineCore, now: Nanos) -> Vec<(Vec<u8>, PeerAddr)> {
    let mut out = Vec::new();
    for f in take_up(e) {
        if f.ty == FRAME_DATA_UP {
            out.extend(e.handle_logic_frame(&f.into_send(), now).unwrap());
        }
    }
    out
}

#[test]
fn echoes_travel_both_ways() {
    let mut e = online();
    let (conn_id, secret) = handshake(&mut e, PEER, T0);
    let up = take_up(&mut e);
    assert_eq!(up.len(), 1);
    assert_eq!(up[0].ty, FRAME_SESSION_OPEN);
    let (sid, addr, token) = frame::parse_session_open(&up[0].body).unwrap();
    assert_eq!((sid, addr, token), (1, Some(PEER), b"test-token".as_slice()));

    let pkt = build_packet(
        &header(conn_id, 1),
        &[FrameRef::new(CH_UNRELIABLE_SEQUENCED, 42, b"hello soup")],
        &secret,
    );
    assert!(e.handle_datagram(PEER, &pkt, T0).is_none());
    let down = echo_logic(&mut e, T0);
    assert_eq!(down.len(), 1);
    assert_eq!(down[0].1, PEER);
    let data = verify_strip(&down[0].0, &secret).unwrap();
    let (h, frames) = decode(data).unwrap();
    assert_eq!(h.conn_id, conn_id);
    assert_eq!(
        (frames[0].ch, frames[0].msg_id, frames[0].body),
        (CH_UNRELIABLE_SEQUENCED, 42, b"hello soup".as_slice())
    );
}

#[test]
fn stream_clients_are_served_alike() {
    let mut e = online();
    let peer = tcp::virtual_peer(1);
    let (conn_id, secret) = handshake(&mut e, peer, T0);
    assert_eq!(conn_id, 1);
    let pkt = build_packet(
        &header(conn_id, 1),
        &[FrameRef::new(CH_UNRELIABLE_UNORDERED, 1, b"tcp-hello")],
        &secret,
    );
    let framed = tcp::prefix_packet(&pkt);
    let head = [framed[0], framed[1], framed[2], framed[3]];
    assert_eq!(tcp::packet_len(&head), Some(pkt.len()));
    e.handle_datagram(peer, &framed[4..], T0);
    let down = echo_logic(&mut e, T0);
    assert_eq!(down[0].1, peer);
    assert!(tcp::is_virtual_peer(down[0].1));
    let data = verify_strip(&down[0].0, &secret).unwrap();
    assert_eq!(decode(data).unwrap().1[0].body, b"tcp-hello");
    // A datagram client is another session.
    let (udp_conn, _) = handshake(&mut e, PEER, T0);
    assert_ne!(udp_conn, conn_id);
}

#[test]
fn the_greeting_is_exact() {
    let mut e = EngineCore::new(Default::default(), 3, 9, T0);
    let hello = e.on_connected();
    assert_eq!(&hello[..], &[6, 0, 0, 0, FRAME_ENGINE_HELLO, 3, 0, 9, 0, 0, 0]);
    assert!(e.logic_online());
    let mut stream = BytesMut::from(&hello[..]);
    let f = frame::try_decode(&mut stream).unwrap().unwrap();
    assert_eq!(f.ty, FRAME_ENGINE_HELLO);
}

#[test]
fn lifecycle_survives_silence_moves_and_restarts() {
    let mut e = online();
    let (conn_id, secret) = handshake(&mut e, PEER, T0);
    take_up(&mut e);

    // Six seconds of silence, and two more: nothing is closed.
    let mut now = T0;
    while now < T0 + 8 * SECOND {
        now += 100 * MILLISECOND;
        e.tick(now);
    }
    assert!(take_up(&mut e).iter().all(|f| f.ty != FRAME_SESSION_CLOSE));
    assert!(!e.sessions().is_active(1));

    // From another address, with the old connection id.
    let moved = PeerAddr::V4 { ip: 0x7F00_0001, port: 4001 };
    let pkt = build_packet(
        &header(conn_id, 1),
        &[FrameRef::new(CH_UNRELIABLE_SEQUENCED, 7, b"resume-me")],
        &secret,
    );
    e.handle_datagram(moved, &pkt, now);
    let up = take_up(&mut e);
    assert_eq!(up.len(), 1);
    assert_eq!(up[0].ty, FRAME_SESSION_RESUME);
    let pkt = build_packet(
        &header(conn_id, 2),
        &[FrameRef::new(CH_UNRELIABLE_SEQUENCED, 8, b"after-nat")],
        &secret,
    );
    e.handle_datagram(moved, &pkt, now);
    let up = take_up(&mut e);
    assert_eq!(frame::parse_data(&up[0].body), Ok((1, 1, 8, b"after-nat".as_slice())));
    assert_eq!(e.sessions().stats.snapshot().nat_rebind, 1);

    // The logic server restarts; the session is still there.
    let pause = e.on_link_down(now);
    assert_eq!(pause, SECOND);
    assert!(!e.logic_online());
    now += pause;
    e.on_connected();
    let resumes = e.on_greeted(now);
    assert_eq!(resumes.len(), 1);
    assert_eq!(frame::parse_session_resume(&resumes[0].body), Ok((1, 1000)));
}

#[test]
fn shutting_down_reports_every_session() {
    let mut e = online();
    handshake(&mut e, PEER, T0);
    handshake(&mut e, PeerAddr::V4 { ip: 0x7F00_0001, port: 4001 }, T0);
    take_up(&mut e);
    e.shut_down(T0);
    let mut got: Vec<(u64, u8)> = take_up(&mut e)
        .iter()
        .map(|f| {
            assert_eq!(f.ty, FRAME_SESSION_CLOSE);
            frame::parse_session_close(&f.body).unwrap()
        })
        .collect();
    got.sort();
    assert_eq!(got, vec![(1, CLOSE_SHUTDOWN), (2, CLOSE_SHUTDOWN)]);
    assert_eq!(e.sessions().active_count(), 0);
}

#[test]
fn kicks_are_carried_out_and_reported() {
    let mut e = online();
    handshake(&mut e, PEER, T0);
    take_up(&mut e);
    assert_eq!(e.handle_logic_frame(&frame::kick(1, 9), T0), Ok(vec![]));
    let up = take_up(&mut e);
    assert_eq!(up[0].ty, FRAME_SESSION_CLOSE);
    assert_eq!(frame::parse_session_close(&up[0].body), Ok((1, CLOSE_KICKED)));
    assert_eq!(e.sessions().active_count(), 0);
    assert_eq!(e.stats().kicks, 1);
    // Nobody is there to be kicked twice.
    e.handle_logic_frame(&frame::kick(1, 9), T0).unwrap();
    assert!(take_up(&mut e).is_empty());
}

#[test]
fn multicasts_reach_every_session() {
    let mut e = online();
    let other = PeerAddr::V4 { ip: 0x7F00_0001, port: 4001 };
    handshake(&mut e, PEER, T0);
    handshake(&mut e, other, T0);
    let f = frame::multicast(&[2, 7, 1], CH_UNRELIABLE_UNORDERED, 5, b"all");
    let out = e.handle_logic_frame(&f, T0).unwrap();
    let to: Vec<PeerAddr> = out.iter().map(|d| d.1).collect();
    assert_eq!(to, vec![other, PEER]);
    assert_eq!(e.stats().dropped_down, 1);
}

#[test]
fn budgets_drop_what_is_too_much() {
    let mut e = online();
    handshake(&mut e, PEER, T0);
    // 1 kbit/s are 125 bytes a second.
    e.handle_logic_frame(&frame::set_budget(1, 1), T0).unwrap();
    let f = frame::send(1, CH_UNRELIABLE_UNORDERED, 5, &[0; 60]);
    let now = T0 + 2 * SECOND;
    assert_eq!(e.handle_logic_frame(&f, now).unwrap().len(), 1);
    assert_eq!(e.handle_logic_frame(&f, now).unwrap().len(), 0);
    assert_eq!(e.stats().dropped_down, 84);
    assert_eq!(e.handle_logic_frame(&f, now + 2 * SECOND).unwrap().len(), 1);
}

#[test]
fn messages_over_budget_use_up_nothing() {
    let mut e = online();
    handshake(&mut e, PEER, T0);
    e.handle_logic_frame(&frame::set_budget(1, 0), T0).unwrap();
    let f = frame::send(1, CH_RELIABLE_ORDERED, 5, &[0; 60]);
    assert!(e.handle_logic_frame(&f, T0).unwrap().is_empty());
    assert_eq!(e.stats().dropped_down, 84);
    // A message in fragments counts as a whole: two fragments of 30 bytes and the payload.
    let long = frame::send(1, CH_RELIABLE_ORDERED, 5, &[0; 1500]);
    assert!(e.handle_logic_frame(&long, T0).unwrap().is_empty());
    assert_eq!(e.stats().dropped_down, 84 + 1560);
    // Nothing is sent again later: heartbeats are all there is.
    for i in 1..=4 {
        for (bytes, _) in e.tick(T0 + i * 500 * MILLISECOND) {
            assert!(decode(&bytes).unwrap().1.is_empty());
        }
    }
    // The first message that passes has the first number.
    e.handle_logic_frame(&frame::set_budget(1, 100), T0).unwrap();
    let now = T0 + 3 * SECOND;
    let down = e.handle_logic_frame(&f, now).unwrap();
    let (h, _) = decode(&down[0].0[..down[0].0.len() - 4]).unwrap();
    let first = h.seq;
    let down = e.handle_logic_frame(&long, now).unwrap();
    assert_eq!(down.iter().map(|d| d.0.len()).sum::<usize>(), 1560);
    let (h, _) = decode(&down[0].0[..down[0].0.len() - 4]).unwrap();
    assert_eq!(h.seq, first.wrapping_add(1));

    // The same client without a budget starts with the same number.
    let mut free = online();
    handshake(&mut free, PEER, T0);
    let down = free.handle_logic_frame(&f, T0).unwrap();
    let (h, _) = decode(&down[0].0[..down[0].0.len() - 4]).unwrap();
    assert_eq!(h.seq, first);
}

#[test]
fn malformed_frames_change_nothing() {
    let mut e = online();
    let bad = Frame::new(FRAME_SEND, vec![1, 2, 3]);
    assert_eq!(
        e.handle_logic_frame(&bad, T0),
        Err(Error::Protocol(ProtocolError::BodyTooShort))
    );
    assert_eq!(e.handle_logic_frame(&Frame::new(0x77, vec![]), T0), Ok(vec![]));
}

#[test]
fn overflowing_clients_are_closed() {
    let mut e = online();
    handshake(&mut e, PEER, T0);
    take_up(&mut e);
    let f = frame::send(1, CH_RELIABLE_ORDERED, 5, b"x");
    for _ in 0..64 {
        assert_eq!(e.handle_logic_frame(&f, T0).unwrap().len(), 1);
    }
    assert!(e.handle_logic_frame(&f, T0).unwrap().is_empty());
    let up = take_up(&mut e);
    assert_eq!(frame::parse_session_close(&up[0].body), Ok((1, CLOSE_OVERFLOW)));
}

#[test]
fn quiet_sessions_get_heartbeats() {
    let mut e = online();
    let (conn_id, _) = handshake(&mut e, PEER, T0);
    assert!(e.tick(T0 + 900 * MILLISECOND).is_empty());
    let beats = e.tick(T0 + SECOND);
    assert_eq!(beats.len(), 1);
    let (h, frames) = decode(&beats[0].0).unwrap();
    assert_eq!((h.conn_id, h.flags), (conn_id, 0));
    assert!(frames.is_empty());
    assert!(e.tick(T0 + 1100 * MILLISECOND).is_empty());
}

#[test]
fn sessions_are_reported_once_a_second() {
    let mut e = online();
    handshake(&mut e, PEER, T0);
    take_up(&mut e);
    e.tick_second(T0 + SECOND);
    let up = take_up(&mut e);
    assert_eq!(up, vec![frame::session_stats(1, 0, 0, 0)]);
    assert_eq!(up[0].ty, FRAME_SESSION_STATS);
}

#[test]
fn a_full_queue_drops_only_the_droppable() {
    let mut e = online();
    for i in 0..UP_QUEUE_CAP {
        e.push_frame(frame::data_up(i as u64, 0, 0, b""), true, T0);
    }
    let later = T0 + OVERLOAD_MIN_INTERVAL;
    e.push_frame(frame::data_up(1, 0, 0, b"lost"), true, later);
    assert_eq!(e.stats().dropped_up, 1);
    e.push_frame(frame::session_close(9, 1), false, later);
    assert_eq!(e.stats().dropped_up, 1);
    e.tick_second(later);
    let up = take_up(&mut e);
    assert_eq!(up.len(), UP_QUEUE_CAP + 2);
    assert_eq!(up[UP_QUEUE_CAP], frame::session_close(9, 1));
    assert_eq!(up[UP_QUEUE_CAP + 1], frame::overload(1, 0));
    assert_eq!(up[UP_QUEUE_CAP + 1].ty, FRAME_OVERLOAD);
}

#[test]
fn without_a_logic_server_frames_are_counted_as_lost() {
    let mut e = engine();
    handshake(&mut e, PEER, T0);
    assert!(e.next_up().is_none());
    assert_eq!(e.stats().dropped_up, 1);
    assert_eq!(e.sessions().active_count(), 1);
}

#[test]
fn pauses_between_tries_double() {
    let mut e = engine();
    let pauses: Vec<Nanos> = (0..6).map(|_| e.on_connect_failed()).collect();
    assert_eq!(pauses, vec![SECOND, 2 * SECOND, 4 * SECOND, 8 * SECOND, 8 * SECOND, 8 * SECOND]);
    assert_eq!(pauses[5], LOGIC_RECONNECT_MAX);
    e.on_connected();
    assert_eq!(e.on_greeting_failed(), LOGIC_RECONNECT_INTERVAL);
    assert_eq!(e.stats().logic_reconnects, 1);
}

#[test]
fn failed_sends_are_counted() {
    let mut e = engine();
    e.note_send_failed();
    assert_eq!(e.stats().dropped_down, 1);
}

/// A client of its own making: it keeps reliable messages in order, joins fragments and
/// acknowledges.
struct Client {
    conn_id: u32,
    secret: [u8; 8],
    reorder: BTreeMap<u16, (u16, Vec<u8>)>,
    next: u16,
    frags: HashMap<u16, (Vec<Option<Vec<u8>>>, u16)>,
    completed: VecDeque<u16>,
    received: Vec<u16>,
    delivered: Vec<(u16, Vec<u8>)>,
}

impl Client {
    fn new(conn_id: u32, secret: [u8; 8]) -> Self {
        Client {
            conn_id,
            secret,
            reorder: BTreeMap::new(),
            next: 0,
            frags: HashMap::new(),
            completed: VecDeque::new(),
            received: Vec::new(),
            delivered: Vec::new(),
        }
    }

    fn behind(&self, seq: u16) -> bool {
        (seq.wrapping_sub(self.next) as i16) < 0
    }

    /// Takes in a datagram; returns the acknowledgement.
    fn handle(&mut self, buf: &[u8]) -> Option<Vec<u8>> {
        let data = verify_strip(buf, &self.secret)?;
        let (h, frames) = decode(data).unwrap();
        assert_eq!(h.conn_id, self.conn_id);
        if frames.is_empty() {
            return None;
        }
        if !self.received.contains(&h.seq) {
            self.received.push(h.seq);
        }
        for f in frames.iter().filter(|f| f.ch == CH_RELIABLE_ORDERED) {
            if self.behind(h.seq) {
                continue;
            }
            if h.flags & FLAG_FRAGMENT == 0 {
                self.reorder.insert(h.seq, (f.msg_id, f.body.to_vec()));
            } else {
                self.fragment(f.msg_id, f.body);
            }
        }
        while let Some((msg_id, payload)) = self.reorder.remove(&self.next) {
            self.next = self.next.wrapping_add(1);
            if msg_id != u16::MAX {
                self.delivered.push((msg_id, payload));
            }
        }
        let ack = self.next.wrapping_sub(1);
        let mut ack_bits = 0u32;
        for i in 1..=32u16 {
            if self.received.contains(&ack.wrapping_add(i)) {
                ack_bits |= 1 << (i - 1);
            }
        }
        let h = DatagramHeader {
            version: VERSION,
            flags: FLAG_PURE_ACK,
            conn_id: self.conn_id,
            seq: 0,
            ack,
            ack_bits,
        };
        let mut out = Vec::new();
        encode(&h, &[], &mut out).unwrap();
        Some(out)
    }

    fn fragment(&mut self, msg_id: u16, body: &[u8]) {
        let group = u16::from_le_bytes([body[0], body[1]]);
        let first = u16::from_le_bytes([body[2], body[3]]);
        let (no, total) = (body[4] as usize, body[5] as usize);
        if self.completed.contains(&group) {
            return;
        }
        let entry = self.frags.entry(group).or_insert_with(|| (vec![None; total], first));
        entry.0[no] = Some(body[6..].to_vec());
        if entry.0.iter().all(|p| p.is_some()) {
            let full: Vec<u8> = entry.0.iter().flatten().flatten().copied().collect();
            self.frags.remove(&group);
            self.completed.push_back(group);
            for i in 1..total as u16 {
                self.reorder.insert(first.wrapping_add(i), (u16::MAX, Vec::new()));
            }
            self.reorder.insert(first, (msg_id, full));
        }
    }
}

fn next_rand(state: &mut u64) -> u64 {
    let mut x = *state;
    x ^= x << 13;
    x ^= x >> 7;
    x ^= x << 17;
    *state = x;
    x.wrapping_mul(0x2545_F491_4F6C_DD1D)
}

fn message(i: u16) -> Vec<u8> {
    if i % 3 == 0 {
        format!("msg-{i:03}-{}", "x".repeat(1200)).into_bytes()
    } else {
        format!("msg-{i:03}").into_bytes()
    }
}

/// Fifty reliable messages through a network that delays by 130 to 170 ms and loses one
/// datagram in twenty: all arrive, in order, whole.
#[test]
fn reliable_messages_survive_loss_and_delay() {
    let mut e = online();
    let (conn_id, secret) = handshake(&mut e, PEER, T0);
    let mut client = Client::new(conn_id, secret);
    let mut state = 0x1234_5678_9ABC_DEF1u64;
    // What is under way: the time of arrival, whether it goes down, and the bytes.
    let mut air: Vec<(Nanos, bool, Vec<u8>)> = Vec::new();
    let mut now = T0;
    let mut sent: u16 = 0;
    while client.delivered.len() < 50 && now < T0 + 15 * SECOND {
        let mut down = Vec::new();
        if (now - T0) % (25 * MILLISECOND) == 0 && sent < 50 {
            let f = frame::send(1, CH_RELIABLE_ORDERED, sent, &message(sent));
            down.extend(e.handle_logic_frame(&f, now).unwrap());
            sent += 1;
        }
        if (now - T0) % (100 * MILLISECOND) == 0 {
            down.extend(e.tick(now));
        }
        for (bytes, _) in down {
            if next_rand(&mut state) % 20 != 0 {
                let delay = 130 + next_rand(&mut state) % 41;
                air.push((now + delay * MILLISECOND, true, bytes));
            }
        }
        let (due, rest): (Vec<_>, Vec<_>) = air.into_iter().partition(|p| p.0 <= now);
        air = rest;
        for (_, downwards, bytes) in due {
            if downwards {
                if let Some(ack) = client.handle(&bytes) {
                    air.push((now, false, ack));
                }
            } else {
                e.handle_datagram(PEER, &bytes, now);
            }
        }
        now += 5 * MILLISECOND;
    }
    assert_eq!(client.delivered.len(), 50);
    for (i, (msg_id, payload)) in client.delivered.iter().enumerate() {
        assert_eq!(*msg_id, i as u16);
        assert_eq!(*payload, message(i as u16));
    }
    assert!(e.sessions().stats.snapshot().retransmits > 0);
}
