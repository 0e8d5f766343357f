//! Buffers, metrics, the simulated network, stream transports, TLV messages.

use bytes::BytesMut;
use soup_engine::addr::PeerAddr;
use soup_engine::buffer::{BufferPool, SMALL_CAP};
use soup_engine::client::Inbox;
use soup_engine::protocol::message::Message;
use soup_engine::protocol::datapack::DataPack;
use soup_engine::protocol::types::{MILLISECOND, Nanos};
use soup_engine::routing::{reply, EchoHandler, RouteTable};
use soup_engine::session::hmac4;
use soup_engine::session::seal::{open_with, seal, secret_key};
use soup_engine::stats::Stats;
use soup_engine::transport::netem::Netem;
use soup_engine::transport::outlet::{outlet_of, Outlet};
use soup_engine::transport::{tcp, ws};

const T0: Nanos = 1_000_000_000_000;

#[test]
fn acquire_release_cycle() {
    let mut pool = BufferPool::new();
    let b = pool.acquire(100);
    assert!(b.capacity() >= 100);
    pool.release(b);
    // The same level again: the buffer comes from the pool.
    let b2 = pool.acquire(100);
    assert!(b2.capacity() >= 100);
}

#[test]
fn oversized_buf_dropped() {
    let mut pool = BufferPool::new();
    let mut b = BytesMut::with_capacity(100);
    b.reserve(100_000);
    pool.release(b);
    // The pool has not grown: a small buffer comes as ever.
    let b2 = pool.acquire(50);
    assert!(b2.capacity() >= 50);
}

#[test]
fn small_and_large_differ() {
    let mut pool = BufferPool::new();
    let small = pool.acquire(10);
    assert!(small.capacity() <= SMALL_CAP);
    let large = pool.acquire(20 * 1024);
    assert!(large.capacity() >= 20 * 1024);
}

#[test]
fn released_buffers_come_back_empty() {
    let mut pool = BufferPool::new();
    let mut b = pool.acquire(100);
    b.extend_from_slice(b"left over");
    pool.release(b);
    let b2 = pool.acquire(100);
    assert!(b2.is_empty());
}

#[test]
fn a_recycled_buffer_has_room_for_what_was_asked() {
    let mut pool = BufferPool::new();
    let tiny = BytesMut::with_capacity(16);
    pool.release_with(tiny, 16);
    let b = pool.acquire(200);
    assert!(b.is_empty());
    assert!(b.capacity() >= 200);
}

#[test]
fn every_buffer_has_the_room_asked_for() {
    let mut pool = BufferPool::new();
    pool.release(BytesMut::with_capacity(10));
    pool.release(BytesMut::with_capacity(300));
    for min in [100, 0, 256, 257, 1500, 1501, 16384, 16385, 100] {
        let b = pool.acquire(min);
        assert_eq!(b.len(), 0);
        assert!(b.capacity() >= min);
        pool.release(b);
    }
}

#[test]
fn blackout_window() {
    let mut n = Netem::new();
    let now = T0;
    assert!(!n.is_blackout(now));
    n.set_blackout(10 * MILLISECOND, 50 * MILLISECOND, now);
    assert!(!n.is_blackout(now));
    let now = now + 30 * MILLISECOND;
    assert!(n.is_blackout(now));
    let now = now + 60 * MILLISECOND;
    assert!(!n.is_blackout(now));
}

#[test]
fn latency_within_bounds() {
    let n = Netem {
        delay: 100 * MILLISECOND,
        jitter: 20 * MILLISECOND,
        ..Netem::new()
    };
    for _ in 0..100 {
        let l = n.latency();
        assert!(l >= 90 * MILLISECOND, "{l}");
        assert!(l <= 110 * MILLISECOND, "{l}");
    }
}

#[test]
fn latency_varies() {
    let n = Netem { delay: 500 * MILLISECOND, jitter: 1000 * MILLISECOND, ..Netem::new() };
    let first = n.latency();
    assert!((0..200).any(|_| n.latency() != first));
}

#[test]
fn latency_follows_the_formula() {
    let n = Netem { delay: 100 * MILLISECOND, jitter: 20 * MILLISECOND, ..Netem::new() };
    assert_eq!(n.latency_with(-10), 90 * MILLISECOND);
    assert_eq!(n.latency_with(0), 100 * MILLISECOND);
    assert_eq!(n.latency_with(7), 107 * MILLISECOND);
    let still = Netem { delay: 1_234_567, ..Netem::new() };
    assert_eq!(still.latency(), 1_234_567);
    let wild = Netem { delay: MILLISECOND, jitter: 100 * MILLISECOND, ..Netem::new() };
    assert_eq!(wild.latency_with(-50), 0);
}

#[test]
fn blackouts_include_both_ends() {
    let mut n = Netem::new();
    n.set_blackout(10, 50, T0);
    assert!(!n.is_blackout(T0 + 9));
    assert!(n.is_blackout(T0 + 10));
    assert!(n.is_blackout(T0 + 60));
    assert!(!n.is_blackout(T0 + 61));
}

#[test]
fn counters_count() {
    let mut s = Stats::new();
    s.pkt_in.incr();
    s.pkt_in.incr();
    s.pkt_bytes_in.incr_by(40);
    s.sessions_active.incr();
    s.sessions_active.decr();
    let snap = s.snapshot();
    assert_eq!(snap.pkt_in, 2);
    assert_eq!(snap.pkt_bytes_in, 40);
    assert_eq!(snap.sessions_active, 0);
    assert_eq!(snap.pkt_out, 0);
    assert_eq!(s.pkt_in.get(), 2);
}

#[test]
fn packets_survive_the_stream() {
    let out = tcp::prefix_packet(b"abc");
    assert_eq!(out, vec![3, 0, 0, 0, b'a', b'b', b'c']);
    assert_eq!(tcp::packet_len(&[3, 0, 0, 0]), Some(3));
    assert_eq!(tcp::packet_len(&[0, 0, 0, 0]), None);
    assert_eq!(tcp::packet_len(&[0xFF, 0xFF, 0, 0]), Some(65535));
    assert_eq!(tcp::packet_len(&[0, 0, 1, 0]), None);
}

#[test]
fn virtual_peers_are_told_apart() {
    let t = tcp::virtual_peer(7);
    let w = ws::virtual_peer(7);
    assert_eq!(t, PeerAddr::V4 { ip: 0x7F00_0002, port: 7 });
    assert_eq!(w, PeerAddr::V4 { ip: 0x7F00_0003, port: 7 });
    assert!(tcp::is_virtual_peer(t) && !tcp::is_virtual_peer(w));
    assert!(ws::is_virtual_peer(w) && !ws::is_virtual_peer(t));
    let plain = PeerAddr::V4 { ip: 0x7F00_0001, port: 7 };
    assert!(!tcp::is_virtual_peer(plain) && !ws::is_virtual_peer(plain));
}

#[test]
fn peers_are_reached_over_their_transport() {
    let t = tcp::virtual_peer(7);
    let w = ws::virtual_peer(7);
    let plain = PeerAddr::V4 { ip: 0x7F00_0001, port: 7 };
    let six = PeerAddr::V6 { ip: 0x7F00_0002, port: 7, flowinfo: 0, scope_id: 0 };
    assert_eq!(outlet_of(t, true, true), Outlet::Tcp);
    assert_eq!(outlet_of(t, true, false), Outlet::Tcp);
    assert_eq!(outlet_of(t, false, true), Outlet::Udp);
    assert_eq!(outlet_of(w, true, true), Outlet::Ws);
    assert_eq!(outlet_of(w, false, true), Outlet::Ws);
    assert_eq!(outlet_of(w, true, false), Outlet::Udp);
    assert_eq!(outlet_of(plain, true, true), Outlet::Udp);
    assert_eq!(outlet_of(six, true, true), Outlet::Udp);
}

#[test]
fn hmac_is_hmac_sha256() {
    // RFC 4231, second test vector: 5bdcc146bf60754e...
    assert_eq!(hmac4(b"Jefe", b"what do ya want for nothing?"), [0x5b, 0xdc, 0xc1, 0x46]);
    // RFC 4231, first test vector: b0344c61d8db3853...
    assert_eq!(hmac4(&[0x0b; 20], b"Hi There"), [0xb0, 0x34, 0x4c, 0x61]);
}

#[test]
fn sealed_datagrams_open_with_the_same_key_only() {
    let mut bytes = b"datagram".to_vec();
    seal(0x0102_0304_0506_0708, &mut bytes);
    assert_eq!(bytes.len(), 12);
    let key = secret_key(0x0102_0304_0506_0708);
    assert_eq!(key, vec![8, 7, 6, 5, 4, 3, 2, 1]);
    let mac = hmac4(&key, b"datagram");
    assert_eq!(open_with(&bytes, &mac), Some(b"datagram".as_slice()));
    let other = hmac4(&secret_key(9), b"datagram");
    assert_eq!(open_with(&bytes, &other), None);
}

#[test]
fn messages_survive_packing() {
    let m = Message::new(7, b"hello".to_vec());
    let bytes = DataPack::new().pack(&m);
    assert_eq!(bytes, vec![5, 0, 0, 0, 7, 0, 0, 0, b'h', b'e', b'l', b'l', b'o']);
    let (got, used) = DataPack::new().unpack(&bytes).unwrap().unwrap();
    assert_eq!((got.id(), got.len(), got.data()), (7, 5, b"hello".as_slice()));
    assert_eq!(used, bytes.len());
    for cut in 0..bytes.len() {
        assert!(DataPack::new().unpack(&bytes[..cut]).unwrap().is_none());
    }
}

#[test]
fn the_inbox_does_not_mind_cuts() {
    let pack = DataPack::new();
    let mut bytes = pack.pack(&Message::new(1, b"one".to_vec()));
    bytes.extend(pack.pack(&Message::new(2, Vec::new())));
    bytes.extend(pack.pack(&Message::new(3, b"three".to_vec())));
    for size in 1..bytes.len() {
        let mut inbox = Inbox::new();
        let mut got = Vec::new();
        for chunk in bytes.chunks(size) {
            inbox.feed(chunk);
            got.extend(inbox.recv_available());
        }
        let ids: Vec<u32> = got.iter().map(|m| m.id()).collect();
        assert_eq!(ids, vec![1, 2, 3]);
        assert_eq!(got[2].data(), b"three");
        assert!(inbox.next_message().is_none());
    }
}

#[test]
fn routes_fall_back_to_the_default() {
    let mut routes = RouteTable::with_default_handler("default");
    routes.add_route(1, "one");
    routes.add_route(1, "other");
    assert_eq!(*routes.target(1), "other");
    assert_eq!(*routes.target(2), "default");
}

#[test]
fn echoes_answer_what_came() {
    let m = EchoHandler.respond(&Message::new(9, b"ping".to_vec()));
    assert_eq!((m.id(), m.data()), (9, b"ping".as_slice()));
    let m = reply(&Message::new(9, b"ping".to_vec()), b"pong".to_vec());
    assert_eq!((m.id(), m.data()), (9, b"pong".as_slice()));
}
