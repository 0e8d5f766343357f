//! No byte string makes a parser panic.

use bytes::BytesMut;
use soup_engine::addr::PeerAddr;
use soup_engine::protocol::datagram::decode;
use soup_engine::protocol::frame::try_decode;
use soup_engine::protocol::types::{MILLISECOND, MTU};
use soup_engine::session::SessionTable;

/// xorshift64*
fn next_rand(state: &mut u64) -> u64 {
    let mut x = *state;
    x ^= x << 13;
    x ^= x >> 7;
    x ^= x << 17;
    *state = x;
    x.wrapping_mul(0x2545_F491_4F6C_DD1D)
}

fn random_bytes(state: &mut u64, max_len: usize) -> Vec<u8> {
    let len = (next_rand(state) % max_len as u64) as usize;
    (0..len).map(|_| (next_rand(state) & 0xFF) as u8).collect()
}

#[test]
fn fuzz_datagram_decode_never_panics() {
    let mut state = 0x5A50_5A50_5A50_5A50u64;
    for _ in 0..50_000 {
        let buf = random_bytes(&mut state, MTU + 16);
        let _ = decode(&buf);
    }
}

#[test]
fn fuzz_frame_stream_never_panics() {
    let mut state = 0xDEAD_BEEF_CAFE_F00Du64;
    for _ in 0..20_000 {
        let mut buf = BytesMut::from(&random_bytes(&mut state, 4096)[..]);
        loop {
            match try_decode(&mut buf) {
                Ok(Some(_)) => continue,
                _ => break,
            }
        }
    }
}

#[test]
fn fuzz_session_handle_never_panics() {
    let mut table = SessionTable::new(Default::default());
    // 127.0.0.1:9999
    let peer = PeerAddr::V4 { ip: 0x7F00_0001, port: 9999 };
    let mut state = 0x0123_4567_89AB_CDEFu64;
    let mut now = 1_000_000_000_000;
    for _ in 0..30_000 {
        let buf = random_bytes(&mut state, MTU + 8);
        let _ = table.handle_datagram(peer, &buf, now);
        now += MILLISECOND;
    }
    // The table is as healthy as before.
    assert!(table.active_count() < 10_000);
}

#[test]
fn fuzz_well_formed_headers_never_panic() {
    let mut table = SessionTable::new(Default::default());
    let peer = PeerAddr::V4 { ip: 0x7F00_0001, port: 9999 };
    let mut state = 0xFEED_5EED_0000_0001u64;
    let mut now = 1_000_000_000_000;
    for _ in 0..30_000 {
        let mut buf = vec![0x50, 0x5A, 1];
        buf.extend(random_bytes(&mut state, 64));
        let _ = table.handle_datagram(peer, &buf, now);
        now += MILLISECOND;
    }
    assert!(table.active_count() < 10_000);
}
