//! The frames of the link to the logic server.

use bytes::BytesMut;
use soup_engine::addr::PeerAddr;
use soup_engine::error::{Error, ProtocolError};
use soup_engine::protocol::frame::{
    data_up, decode_addr, encode, encode_addr, engine_hello, kick, known_type, logic_hello, multicast,
    overload, parse_data, parse_multicast, parse_session_close, parse_session_open,
    parse_session_resume, parse_set_budget, send, session_close, session_open, session_resume,
    session_stats, set_budget, try_decode, Frame, ADDR_LEN,
};
use soup_engine::protocol::types::{
    CH_RELIABLE_ORDERED, CH_UNRELIABLE_SEQUENCED, FRAME_DATA_UP, FRAME_ENGINE_HELLO, FRAME_KICK,
    FRAME_LOGIC_HELLO, FRAME_MULTICAST, FRAME_OVERLOAD, FRAME_SEND, FRAME_SESSION_CLOSE,
    FRAME_SESSION_OPEN, FRAME_SESSION_RESUME, FRAME_SESSION_STATS, FRAME_SET_BUDGET,
    MAX_FRAME_BODY,
};
use soup_engine::transport::uds::{frame_bytes, FrameReader};

fn too_short<T>(r: Result<T, Error>) -> bool {
    matches!(r, Err(Error::Protocol(ProtocolError::BodyTooShort)))
}

#[test]
fn frame_roundtrip_stream() {
    let mut stream = BytesMut::new();
    engine_hello(1, 0xDEAD, &mut stream).unwrap();
    let f1 = Frame::new(FRAME_SESSION_OPEN, vec![1, 2, 3]);
    encode(f1.ty, &f1.body, &mut stream).unwrap();
    // Three bytes at a time, as a slow peer would send them.
    let mut feed = BytesMut::new();
    let mut got = Vec::new();
    for chunk in stream.chunks(3) {
        feed.extend_from_slice(chunk);
        while let Some(f) = try_decode(&mut feed).unwrap() {
            got.push(f);
        }
    }
    assert_eq!(got.len(), 2);
    assert_eq!(got[0].ty, FRAME_ENGINE_HELLO);
    assert_eq!(got[1].ty, FRAME_SESSION_OPEN);
    assert_eq!(got[1].body, vec![1, 2, 3]);
}

#[test]
fn rejects_bad_length() {
    let mut stream = BytesMut::new();
    // Ten bytes are announced; none has arrived yet.
    stream.extend_from_slice(&10u32.to_le_bytes());
    stream.extend_from_slice(&[0x10]);
    assert!(try_decode(&mut stream).unwrap().is_none());
    // Over the limit.
    let mut s2 = BytesMut::new();
    s2.extend_from_slice(&(MAX_FRAME_BODY + 1).to_le_bytes());
    s2.extend_from_slice(&[0x10]);
    assert!(try_decode(&mut s2).is_err());
}

#[test]
fn session_open_roundtrip() {
    // 127.0.0.1:9999
    let addr = PeerAddr::V4 { ip: 0x7F00_0001, port: 9999 };
    let f = session_open(42, &addr, b"token-abc");
    assert_eq!(f.ty, FRAME_SESSION_OPEN);
    let (sid, got_addr, token) = parse_session_open(&f.body).unwrap();
    assert_eq!(sid, 42);
    assert_eq!(got_addr, Some(addr));
    assert_eq!(token, b"token-abc");
}

#[test]
fn addr_v6_roundtrip() {
    // [::1]:8080
    let addr = PeerAddr::V6 { ip: 1, port: 8080, flowinfo: 0, scope_id: 0 };
    let enc = encode_addr(&addr);
    let dec = decode_addr(&enc).unwrap();
    assert_eq!(dec, addr);
}

#[test]
fn data_and_multicast_roundtrip() {
    let f = data_up(7, CH_UNRELIABLE_SEQUENCED, 1234, b"payload");
    let (sid, ch, msg_id, payload) = parse_data(&f.body).unwrap();
    assert_eq!((sid, ch, msg_id, payload), (7, CH_UNRELIABLE_SEQUENCED, 1234, b"payload".as_slice()));

    let m = multicast(&[1, 2, 3], CH_RELIABLE_ORDERED, 99, b"broadcast");
    let (ids, ch, msg_id, payload) = parse_multicast(&m.body).unwrap();
    assert_eq!(ids, vec![1, 2, 3]);
    assert_eq!(ch, CH_RELIABLE_ORDERED);
    assert_eq!(msg_id, 99);
    assert_eq!(payload, b"broadcast");
}

#[test]
fn garbage_never_panics() {
    let mut stream = BytesMut::new();
    for b in 0u8..=255 {
        stream.extend_from_slice(&[b; 8]);
    }
    let mut feed = BytesMut::from(&stream[..]);
    loop {
        match try_decode(&mut feed) {
            Ok(Some(_)) => continue,
            _ => break,
        }
    }
}

#[test]
fn frame_bytes_are_exact() {
    let mut out = BytesMut::new();
    encode(0x81, &[7, 8, 9], &mut out).unwrap();
    assert_eq!(&out[..], &[3, 0, 0, 0, 0x81, 7, 8, 9]);
    let mut out = BytesMut::new();
    engine_hello(0x0102, 0x0304_0506, &mut out).unwrap();
    assert_eq!(&out[..], &[6, 0, 0, 0, FRAME_ENGINE_HELLO, 2, 1, 6, 5, 4, 3]);
    let mut out = BytesMut::new();
    logic_hello(1, 2, &mut out).unwrap();
    assert_eq!(&out[..], &[6, 0, 0, 0, FRAME_LOGIC_HELLO, 1, 0, 2, 0, 0, 0]);
}

#[test]
fn bodies_over_the_limit_are_refused() {
    let mut out = BytesMut::new();
    let body = vec![0u8; MAX_FRAME_BODY as usize];
    assert!(encode(FRAME_SEND, &body, &mut out).is_ok());
    assert_eq!(out.len(), MAX_FRAME_BODY as usize + 5);
    let mut out = BytesMut::new();
    let body = vec![0u8; MAX_FRAME_BODY as usize + 1];
    assert_eq!(
        encode(FRAME_SEND, &body, &mut out),
        Err(Error::Protocol(ProtocolError::FrameTooLong { len: MAX_FRAME_BODY as usize + 1 }))
    );
    assert!(out.is_empty());
}

#[test]
fn an_address_takes_eighteen_bytes() {
    let v4 = PeerAddr::V4 { ip: 0x7F00_0001, port: 0x270F };
    let enc = encode_addr(&v4);
    assert_eq!(enc.len(), ADDR_LEN);
    assert_eq!(decode_addr(&enc), Some(v4));
    assert_eq!(decode_addr(&enc[..ADDR_LEN - 1]), None);
}

#[test]
fn address_bytes_are_exact() {
    let v4 = encode_addr(&PeerAddr::V4 { ip: 0x7F00_0001, port: 9999 });
    assert_eq!(v4, [127, 0, 0, 1, 0, 0, 0, 0, 0, 0, 0, 0, 0, 0, 0, 0, 0x0F, 0x27]);
    let v6 = encode_addr(&PeerAddr::V6 { ip: 1, port: 8080, flowinfo: 0, scope_id: 0 });
    assert_eq!(v6, [0, 0, 0, 0, 0, 0, 0, 0, 0, 0, 0, 0, 0, 0, 0, 1, 0x90, 0x1F]);
}

#[test]
fn builders_and_parsers_agree() {
    let f = session_close(7, 3);
    assert_eq!(f.ty, FRAME_SESSION_CLOSE);
    assert_eq!(f.body, vec![7, 0, 0, 0, 0, 0, 0, 0, 3]);
    assert_eq!(parse_session_close(&f.body), Ok((7, 3)));

    let f = session_resume(7, 0x0102);
    assert_eq!(f.ty, FRAME_SESSION_RESUME);
    assert_eq!(parse_session_resume(&f.body), Ok((7, 0x0102)));

    let f = send(7, 2, 5, b"down");
    assert_eq!(f.ty, FRAME_SEND);
    assert_eq!(f.body, vec![7, 0, 0, 0, 0, 0, 0, 0, 2, 5, 0, b'd', b'o', b'w', b'n']);
    assert_eq!(parse_data(&f.body), Ok((7, 2, 5, b"down".as_slice())));

    let f = kick(7, 2);
    assert_eq!(f.ty, FRAME_KICK);
    assert_eq!(parse_session_close(&f.body), Ok((7, 2)));

    let f = set_budget(7, 640);
    assert_eq!(f.ty, FRAME_SET_BUDGET);
    assert_eq!(parse_set_budget(&f.body), Ok((7, 640)));

    let f = session_stats(7, 100, 5, 640);
    assert_eq!(f.ty, FRAME_SESSION_STATS);
    assert_eq!(f.body, vec![7, 0, 0, 0, 0, 0, 0, 0, 100, 0, 5, 0, 0x80, 2]);

    let f = overload(3, 4);
    assert_eq!(f.ty, FRAME_OVERLOAD);
    assert_eq!(f.body, vec![3, 0, 0, 0, 4, 0, 0, 0]);

    let f = multicast(&[1, 2], 2, 9, b"x");
    assert_eq!(f.ty, FRAME_MULTICAST);
    assert_eq!(
        f.body,
        vec![2, 1, 0, 0, 0, 0, 0, 0, 0, 2, 0, 0, 0, 0, 0, 0, 0, 2, 9, 0, b'x']
    );
}

#[test]
fn data_frames_turn_into_send_frames() {
    let f = data_up(7, 2, 5, b"echo").into_send();
    assert_eq!(f.ty, FRAME_SEND);
    assert_eq!(f, send(7, 2, 5, b"echo"));
    assert_eq!(data_up(7, 2, 5, b"echo").ty, FRAME_DATA_UP);
}

#[test]
fn short_bodies_are_refused() {
    assert!(too_short(parse_session_open(&[0; 10])));
    assert!(too_short(parse_session_close(&[0; 8])));
    assert!(too_short(parse_session_resume(&[0; 11])));
    assert!(too_short(parse_data(&[0; 10])));
    assert!(too_short(parse_multicast(&[])));
    assert!(too_short(parse_multicast(&[0, 2, 9])));
    assert!(too_short(parse_multicast(&[2, 1, 0, 0, 0, 0, 0, 0, 0])));
    assert!(too_short(parse_set_budget(&[0; 9])));
    let mut body = session_open(1, &PeerAddr::V4 { ip: 1, port: 1 }, b"abc").body;
    body.pop();
    assert_eq!(
        parse_session_open(&body),
        Err(Error::Protocol(ProtocolError::TokenTruncated))
    );
}

#[test]
fn the_reader_does_not_mind_cuts() {
    let a = Frame::new(FRAME_SEND, vec![1, 2, 3, 4]);
    let b = Frame::new(FRAME_SEND, vec![0xAB; 10 * 1024]);
    let mut bytes = frame_bytes(&a).unwrap().to_vec();
    bytes.extend_from_slice(&frame_bytes(&b).unwrap());
    for size in [1usize, 3, 1000, 20000] {
        let mut reader = FrameReader::new();
        let mut got = Vec::new();
        for chunk in bytes.chunks(size) {
            reader.feed(chunk);
            while let Some(f) = reader.next_frame().unwrap() {
                got.push(f);
            }
        }
        assert_eq!(got, vec![a.clone(), b.clone()]);
    }
}

#[test]
fn frames_of_unknown_types_are_refused() {
    let mut stream = BytesMut::from(&[0u8, 0, 0, 0, 0xFF][..]);
    assert_eq!(
        try_decode(&mut stream),
        Err(Error::Protocol(ProtocolError::BadFrameType { ty: 0xFF }))
    );
    assert_eq!(&stream[..], &[0, 0, 0, 0, 0xFF]);
    // Not before all of it has come.
    let mut part = BytesMut::from(&[1u8, 0, 0, 0, 0xFF][..]);
    assert_eq!(try_decode(&mut part), Ok(None));
    let mut reader = FrameReader::new();
    reader.feed(&[0, 0, 0, 0, 0x77]);
    assert_eq!(
        reader.next_frame(),
        Err(Error::Protocol(ProtocolError::BadFrameType { ty: 0x77 }))
    );
    let known: Vec<u8> = (0..=255).filter(|ty| known_type(*ty)).collect();
    assert_eq!(
        known,
        vec![0x01, 0x02, 0x03, 0x10, 0x20, 0x2F, 0x30, 0x81, 0x82, 0x83, 0x84, 0x90]
    );
}

#[test]
fn the_reader_refuses_an_endless_frame() {
    let mut reader = FrameReader::new();
    // Announces the largest body, and then more bytes than it can take.
    reader.feed(&MAX_FRAME_BODY.to_le_bytes());
    reader.feed(&[0x10]);
    assert_eq!(reader.next_frame(), Ok(None));
    let mut over = FrameReader::new();
    over.feed(&(MAX_FRAME_BODY + 1).to_le_bytes());
    over.feed(&[0x10]);
    assert_eq!(
        over.next_frame(),
        Err(Error::Protocol(ProtocolError::FrameTooLong { len: MAX_FRAME_BODY as usize + 1 }))
    );
}
