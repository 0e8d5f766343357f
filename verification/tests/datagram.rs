//! The UDP datagram format.

use soup_engine::error::{Error, ProtocolError};
use soup_engine::protocol::datagram::{
    decode, encode, handshake_header, DatagramHeader, FrameRef, HEADER_LEN,
};
use soup_engine::protocol::types::{FLAG_HANDSHAKE, FLAG_PURE_ACK, MTU, VERSION};

fn sample_header() -> DatagramHeader {
    DatagramHeader {
        version: VERSION,
        flags: 0,
        conn_id: 0xDEAD_BEEF,
        seq: 42,
        ack: 7,
        ack_bits: 0xFFFF_FF00,
    }
}

fn protocol_error(buf: &[u8]) -> ProtocolError {
    match decode(buf) {
        Err(Error::Protocol(e)) => e,
        _ => panic!("the datagram was not rejected"),
    }
}

#[test]
fn roundtrip_single_frame() {
    let h = sample_header();
    let f = FrameRef::new(2, 100, b"hello soup");
    let mut buf = Vec::new();
    encode(&h, &[f], &mut buf).unwrap();
    let (dh, df) = decode(&buf).unwrap();
    assert_eq!(dh, h);
    assert_eq!(df.len(), 1);
    assert_eq!(df[0].ch, 2);
    assert_eq!(df[0].msg_id, 100);
    assert_eq!(df[0].body, b"hello soup");
}

#[test]
fn roundtrip_multi_frame_aggregate() {
    let h = sample_header();
    let frames = [
        FrameRef::new(0, 1, b"snapshot"),
        FrameRef::new(1, 2, b"input"),
        FrameRef::new(2, 3, b"event"),
        FrameRef::new(3, 4, b""),
    ];
    let mut buf = Vec::new();
    encode(&h, &frames, &mut buf).unwrap();
    let (dh, df) = decode(&buf).unwrap();
    assert_eq!(dh, h);
    assert_eq!(df.len(), 4);
    for (a, b) in df.iter().zip(frames.iter()) {
        assert_eq!(a.ch, b.ch);
        assert_eq!(a.msg_id, b.msg_id);
        assert_eq!(a.body, b.body);
    }
}

#[test]
fn empty_frames_ok() {
    let h = sample_header();
    let mut buf = Vec::new();
    encode(&h, &[], &mut buf).unwrap();
    assert_eq!(buf.len(), HEADER_LEN);
    let (dh, df) = decode(&buf).unwrap();
    assert_eq!(dh, h);
    assert!(df.is_empty());
}

#[test]
fn rejects_truncated() {
    let h = sample_header();
    let f = FrameRef::new(2, 1, b"payload");
    let mut buf = Vec::new();
    encode(&h, &[f], &mut buf).unwrap();
    // No prefix makes the decoder panic; only a whole number of frames is accepted.
    for cut in 0..buf.len() {
        let r = decode(&buf[..cut]);
        assert_eq!(r.is_ok(), cut == HEADER_LEN);
    }
}

#[test]
fn rejects_garbage_bytes() {
    let cases: Vec<Vec<u8>> = vec![
        vec![],
        vec![0x50],
        vec![0x50, 0x5A],
        vec![0x50, 0x5A, 0x01],
        vec![0xFF; 32],
        vec![0x50, 0x5A, 0x01, 0x00, 0x00, 0x00, 0x00, 0x00, 0x00, 0x00, 0x00, 0x00, 0x00, 0x00, 0x00, 0x00, 0xFF],
        vec![0x50, 0x5A, 0x01, 0x00, 0x00, 0x00, 0x00, 0x00, 0x00, 0x00, 0x00, 0x00, 0x00, 0x00, 0x00, 0x00, 0x00, 0x00, 0x00, 0x00, 0xFF, 0xFF, 0xFF, 0xFF],
    ];
    for c in cases {
        let _ = decode(&c);
    }
}

#[test]
fn rejects_bad_magic_and_version() {
    let h = sample_header();
    let mut buf = Vec::new();
    encode(&h, &[], &mut buf).unwrap();
    buf[0] = 0x00;
    assert!(decode(&buf).is_err());
    buf[0] = 0x50;
    buf[1] = 0x5A;
    buf[2] = 99;
    assert!(decode(&buf).is_err());
}

#[test]
fn rejects_oversize() {
    let mut big = vec![0u8; MTU + 1];
    big[0] = 0x50;
    big[1] = 0x5A;
    big[2] = VERSION;
    assert!(decode(&big).is_err());
}

#[test]
fn rejects_ch_out_of_range_and_bad_len() {
    // Channel 5 does not exist.
    let h = sample_header();
    let mut buf = Vec::new();
    encode(&h, &[], &mut buf).unwrap();
    let bad_head = (1u16 << 4) | 5;
    buf.extend_from_slice(&bad_head.to_le_bytes());
    buf.extend_from_slice(&0u16.to_le_bytes());
    assert!(decode(&buf).is_err());
    // The announced length is more than what is left.
    let mut buf2 = Vec::new();
    encode(&h, &[], &mut buf2).unwrap();
    let head2 = (1u16 << 4) | 2u16;
    buf2.extend_from_slice(&head2.to_le_bytes());
    buf2.extend_from_slice(&200u16.to_le_bytes());
    assert!(decode(&buf2).is_err());
}

#[test]
fn pure_ack_flag_roundtrip() {
    let mut h = sample_header();
    h.flags = FLAG_PURE_ACK;
    let mut buf = Vec::new();
    encode(&h, &[], &mut buf).unwrap();
    let (dh, df) = decode(&buf).unwrap();
    assert_eq!(dh.flags, FLAG_PURE_ACK);
    assert!(df.is_empty());
}

#[test]
fn datagram_bytes_are_exact() {
    let h = sample_header();
    let mut buf = Vec::new();
    let n = encode(&h, &[FrameRef::new(2, 0x123, b"hi")], &mut buf).unwrap();
    assert_eq!(n, 22);
    assert_eq!(
        buf,
        vec![
            0x50, 0x5A, 1, 0, 0xEF, 0xBE, 0xAD, 0xDE, 42, 0, 7, 0, 0x00, 0xFF, 0xFF, 0xFF, 0x32,
            0x12, 2, 0, b'h', b'i',
        ]
    );
}

#[test]
fn encode_appends_and_leaves_the_buffer_alone_on_errors() {
    let h = sample_header();
    let mut fresh = Vec::new();
    encode(&h, &[FrameRef::new(1, 9, b"x")], &mut fresh).unwrap();
    let mut used = vec![1u8, 2, 3];
    assert!(encode(&h, &[FrameRef::new(9, 9, b"x")], &mut used).is_err());
    assert_eq!(used, vec![1, 2, 3]);
    encode(&h, &[FrameRef::new(1, 9, b"x")], &mut used).unwrap();
    assert_eq!(used[..3], [1, 2, 3]);
    assert_eq!(used[3..], fresh[..]);
}

#[test]
fn each_decode_error_has_an_input() {
    let h = sample_header();
    let mut ok = Vec::new();
    encode(&h, &[], &mut ok).unwrap();

    assert_eq!(protocol_error(&[0x50]), ProtocolError::DatagramTooShort { len: 1 });
    assert_eq!(
        protocol_error(&vec![0u8; MTU + 1]),
        ProtocolError::DatagramOverMtu { len: MTU + 1 }
    );
    let mut magic = ok.clone();
    magic[0] = 0;
    assert_eq!(protocol_error(&magic), ProtocolError::BadMagic { magic: 0x5A00 });
    let mut version = ok.clone();
    version[2] = 99;
    assert_eq!(protocol_error(&version), ProtocolError::BadVersion { version: 99 });
    let mut cut = ok.clone();
    cut.extend_from_slice(&[0, 0, 0]);
    assert_eq!(protocol_error(&cut), ProtocolError::FrameHeaderTruncated { left: 3 });
    let mut long = ok.clone();
    long.extend_from_slice(&[0x12, 0, 200, 0]);
    assert_eq!(protocol_error(&long), ProtocolError::FrameBodyTruncated { len: 200, left: 0 });
    let mut ch = ok.clone();
    ch.extend_from_slice(&[0x15, 0, 0, 0]);
    assert_eq!(protocol_error(&ch), ProtocolError::BadChannel { ch: 5 });
}

#[test]
fn each_encode_error_has_an_input() {
    let h = sample_header();
    let mut out = Vec::new();
    assert_eq!(
        encode(&h, &[FrameRef::new(4, 0, b"")], &mut out),
        Err(Error::Protocol(ProtocolError::BadChannel { ch: 4 }))
    );
    assert_eq!(
        encode(&h, &[FrameRef::new(0, 0x1000, b"")], &mut out),
        Err(Error::Protocol(ProtocolError::BadMsgId { msg_id: 0x1000 }))
    );
    let mut wrong = h;
    wrong.version = 2;
    assert_eq!(
        encode(&wrong, &[], &mut out),
        Err(Error::Protocol(ProtocolError::BadVersion { version: 2 }))
    );
    assert!(out.is_empty());
    let body = vec![7u8; MTU - HEADER_LEN - 4];
    assert_eq!(encode(&h, &[FrameRef::new(0, 0, &body)], &mut out), Ok(MTU));
    let body = vec![7u8; MTU - HEADER_LEN - 3];
    assert_eq!(
        encode(&h, &[FrameRef::new(0, 0, &body)], &mut out),
        Err(Error::Protocol(ProtocolError::DatagramOverMtu { len: MTU + 1 }))
    );
}

#[test]
fn handshake_packets_carry_the_flag() {
    let h = handshake_header();
    assert_eq!(h.flags, FLAG_HANDSHAKE);
    assert_eq!(h.conn_id, 0);
    assert_eq!(h.version, VERSION);
}
