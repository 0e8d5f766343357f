//! Link frames: the length-prefixed stream between the engine and a logic server.
//!
//! ```text
//! len   u32   bytes that follow the type
//! type  u8    frame type
//! body  [u8]
//! ```
//!
//! All integers are little-endian. A malformed frame is answered with an `Err`.

use bytes::BytesMut;
use vstd::prelude::*;

use crate::addr::{self, PeerAddr};
use crate::error::{Error, ProtocolError, Result};
use crate::outside::{
    self, bytes_advance, bytes_put_slice, bytes_put_u32_le, bytes_put_u8, bytes_slice,
};
use crate::protocol::types::{
    FRAME_DATA_UP, FRAME_ENGINE_HELLO, FRAME_KICK, FRAME_LOGIC_HELLO, FRAME_MULTICAST,
    FRAME_OVERLOAD, FRAME_SEND, FRAME_SESSION_CLOSE, FRAME_SESSION_OPEN, FRAME_SESSION_RESUME,
    FRAME_SESSION_STATS, FRAME_SET_BUDGET, MAX_FRAME_BODY,
};
use crate::wire::{self, get_u16, get_u32, get_u64, put_bytes, put_u16, put_u32, put_u64};

pub use crate::addr::{decode_addr, encode_addr, ADDR_LEN};

verus! {

/// The length of a frame header: four bytes of length and one of type.
pub const FRAME_HEADER_LEN: usize = 5;

/// One frame; `body` owns its bytes.
#[derive(Debug, Clone, PartialEq, Eq)]
pub struct Frame {
    pub ty: u8,
    pub body: Vec<u8>,
}

/// What a frame is: its type and its body.
#[verifier::ext_equal]
pub struct LinkFrame {
    pub ty: u8,
    pub body: Seq<u8>,
}

impl View for Frame {
    type V = LinkFrame;

    open spec fn view(&self) -> LinkFrame {
        LinkFrame { ty: self.ty, body: self.body@ }
    }
}

impl Frame {
    /// A frame of type `ty`.
    pub fn new(ty: u8, body: Vec<u8>) -> (f: Self)
        ensures
            f.ty == ty,
            f.body == body,
    {
        Self { ty, body }
    }

    /// The same body as a `Send` frame, whose layout is that of a `Data` frame.
    pub fn into_send(self) -> (f: Frame)
        ensures
            f@ == (LinkFrame { ty: FRAME_SEND, body: self@.body }),
    {
        Frame::new(FRAME_SEND, self.body)
    }
}

/// The bytes of a frame on the stream.
pub open spec fn link_bytes(f: LinkFrame) -> Seq<u8> {
    wire::le_bytes(f.body.len(), 4) + seq![f.ty] + f.body
}

/// Whether the protocol defines a frame type.
pub open spec fn is_frame_type(ty: u8) -> bool {
    ||| ty == FRAME_ENGINE_HELLO
    ||| ty == FRAME_SESSION_OPEN
    ||| ty == FRAME_SESSION_CLOSE
    ||| ty == FRAME_SESSION_RESUME
    ||| ty == FRAME_DATA_UP
    ||| ty == FRAME_SESSION_STATS
    ||| ty == FRAME_OVERLOAD
    ||| ty == FRAME_LOGIC_HELLO
    ||| ty == FRAME_SEND
    ||| ty == FRAME_MULTICAST
    ||| ty == FRAME_KICK
    ||| ty == FRAME_SET_BUDGET
}

/// Whether the protocol defines a frame type.
pub fn known_type(ty: u8) -> (r: bool)
    ensures
        r == is_frame_type(ty),
{
    ty == FRAME_ENGINE_HELLO || ty == FRAME_SESSION_OPEN || ty == FRAME_SESSION_CLOSE || ty
        == FRAME_SESSION_RESUME || ty == FRAME_DATA_UP || ty == FRAME_SESSION_STATS || ty
        == FRAME_OVERLOAD || ty == FRAME_LOGIC_HELLO || ty == FRAME_SEND || ty == FRAME_MULTICAST
        || ty == FRAME_KICK || ty == FRAME_SET_BUDGET
}

/// Whether a frame can travel: its type is one that the protocol defines, and its body is within
/// the limit.
pub open spec fn is_sendable(f: LinkFrame) -> bool {
    is_frame_type(f.ty) && f.body.len() <= MAX_FRAME_BODY
}

/// What the front of a stream holds.
pub enum Front {
    /// Not yet a whole frame.
    Partial,
    /// A frame that announces a body above the limit.
    TooLong { len: nat },
    /// All of a frame of a type that the protocol does not define.
    BadType { ty: u8 },
    /// A whole frame, and what follows it.
    Whole { frame: LinkFrame, rest: Seq<u8> },
}

/// Reads the front of a stream.
pub open spec fn front(s: Seq<u8>) -> Front {
    let len = wire::le_value(s.take(4));
    if s.len() < FRAME_HEADER_LEN {
        Front::Partial
    } else if len > MAX_FRAME_BODY {
        Front::TooLong { len }
    } else if s.len() < FRAME_HEADER_LEN + len {
        Front::Partial
    } else if !is_frame_type(s[4]) {
        Front::BadType { ty: s[4] }
    } else {
        Front::Whole {
            frame: LinkFrame { ty: s[4], body: s.subrange(5, 5 + len as int) },
            rest: s.skip(5 + len as int),
        }
    }
}

/// Takes one frame off the front of the stream.
///
/// `Ok(None)` asks for more bytes, and leaves the stream as it is; so does an error.
pub fn try_decode(buf: &mut BytesMut) -> (r: Result<Option<Frame>>)
    ensures
        match front(outside::buffered(*old(buf))) {
            Front::Partial => r == Ok::<Option<Frame>, Error>(None) && outside::buffered(
                *final(buf),
            ) == outside::buffered(*old(buf)),
            Front::TooLong { len } => r == Err::<Option<Frame>, Error>(
                Error::Protocol(ProtocolError::FrameTooLong { len: len as usize }),
            ) && outside::buffered(*final(buf)) == outside::buffered(*old(buf)),
            Front::BadType { ty } => r == Err::<Option<Frame>, Error>(
                Error::Protocol(ProtocolError::BadFrameType { ty }),
            ) && outside::buffered(*final(buf)) == outside::buffered(*old(buf)),
            Front::Whole { frame, rest } => r matches Ok(Some(f)) && f@ == frame
                && outside::buffered(*final(buf)) == rest,
        },
{
    let ghost s = outside::buffered(*buf);
    if buf.len() < FRAME_HEADER_LEN {
        return Ok(None);
    }
    let bytes = bytes_slice(buf);
    assert(bytes@.subrange(0, 4) =~= s.take(4));
    let len: usize = get_u32(bytes, 0) as usize;
    if len > MAX_FRAME_BODY as usize {
        return Err(Error::Protocol(ProtocolError::FrameTooLong { len }));
    }
    let total: usize = FRAME_HEADER_LEN + len;
    if buf.len() < total {
        return Ok(None);
    }
    let ty: u8 = bytes[4];
    if !known_type(ty) {
        return Err(Error::Protocol(ProtocolError::BadFrameType { ty }));
    }
    let body = wire::to_vec(vstd::slice::slice_subrange(bytes, FRAME_HEADER_LEN, total));
    bytes_advance(buf, total);
    let f = Frame { ty, body };
    assert(f@ =~= (LinkFrame { ty: s[4], body: s.subrange(5, 5 + len) }));
    Ok(Some(f))
}

/// Appends one frame to the stream; a body above the limit is refused and nothing is written.
pub fn encode(ty: u8, body: &[u8], out: &mut BytesMut) -> (r: Result<()>)
    requires
        outside::buffered(*old(out)).len() + FRAME_HEADER_LEN + body@.len() <= isize::MAX,
    ensures
        body@.len() <= MAX_FRAME_BODY ==> r == Ok::<(), Error>(()) && outside::buffered(*final(out))
            == outside::buffered(*old(out)) + link_bytes(LinkFrame { ty, body: body@ }),
        body@.len() > MAX_FRAME_BODY ==> r == Err::<(), Error>(
            Error::Protocol(ProtocolError::FrameTooLong { len: body@.len() as usize }),
        ) && outside::buffered(*final(out)) == outside::buffered(*old(out)),
{
    let ghost start = outside::buffered(*out);
    if body.len() > MAX_FRAME_BODY as usize {
        return Err(Error::Protocol(ProtocolError::FrameTooLong { len: body.len() }));
    }
    proof {
        wire::le_bytes_len(body@.len(), 4);
    }
    bytes_put_u32_le(out, body.len() as u32);
    bytes_put_u8(out, ty);
    bytes_put_slice(out, body);
    assert(outside::buffered(*out) =~= start + link_bytes(LinkFrame { ty, body: body@ }));
    Ok(())
}

// The stream as a whole.

/// What comes off a stream when frames are taken until none is whole.
#[verifier::ext_equal]
pub struct Drained {
    pub frames: Seq<LinkFrame>,
    pub rest: Seq<u8>,
}

/// Takes frames off a stream until none is whole.
pub open spec fn drained(s: Seq<u8>) -> Drained
    decreases s.len(),
{
    match front(s) {
        Front::Whole { frame, rest } => {
            let d = drained(rest);
            Drained { frames: seq![frame] + d.frames, rest: d.rest }
        },
        _ => Drained { frames: Seq::empty(), rest: s },
    }
}

/// The bytes of frames written one after the other.
pub open spec fn stream_bytes(frames: Seq<LinkFrame>) -> Seq<u8>
    decreases frames.len(),
{
    if frames.len() == 0 {
        Seq::empty()
    } else {
        link_bytes(frames[0]) + stream_bytes(frames.skip(1))
    }
}

/// A frame that was written is the frame that is read, whatever follows it.
pub proof fn decode_inverts_encode(f: LinkFrame, rest: Seq<u8>)
    requires
        is_sendable(f),
    ensures
        front(link_bytes(f) + rest) == (Front::Whole { frame: f, rest }),
{
    let s = link_bytes(f) + rest;
    wire::le_bytes_len(f.body.len(), 4);
    wire::pow256_values();
    wire::le_value_of_le_bytes(f.body.len(), 4);
    assert(s.take(4) =~= wire::le_bytes(f.body.len(), 4));
    assert(s.subrange(5, 5 + f.body.len() as int) =~= f.body);
    assert(s.skip(5 + f.body.len() as int) =~= rest);
}

/// Frames come off a stream as they were written, none lost, none added, in order; what follows
/// them is read as if they had not been there.
pub proof fn stream_round_trip(frames: Seq<LinkFrame>, tail: Seq<u8>)
    requires
        forall|i: int| 0 <= i < frames.len() ==> is_sendable(#[trigger] frames[i]),
    ensures
        drained(stream_bytes(frames) + tail) == (Drained {
            frames: frames + drained(tail).frames,
            rest: drained(tail).rest,
        }),
    decreases frames.len(),
{
    if frames.len() == 0 {
        assert(stream_bytes(frames) + tail =~= tail);
        assert(frames + drained(tail).frames =~= drained(tail).frames);
    } else {
        let more = frames.skip(1);
        assert forall|i: int| 0 <= i < more.len() implies is_sendable(#[trigger] more[i]) by {
            assert(more[i] == frames[i + 1]);
        }
        stream_round_trip(more, tail);
        decode_inverts_encode(frames[0], stream_bytes(more) + tail);
        assert(stream_bytes(frames) + tail =~= link_bytes(frames[0]) + (stream_bytes(more) + tail));
        assert(seq![frames[0]] + (more + drained(tail).frames) =~= frames + drained(tail).frames);
    }
}

/// How a stream is cut into pieces does not matter: draining a first piece, keeping the rest and
/// draining it with the next piece behind it gives what draining both at once gives.
pub proof fn cuts_do_not_matter(a: Seq<u8>, b: Seq<u8>)
    ensures
        drained(a + b) == (Drained {
            frames: drained(a).frames + drained(drained(a).rest + b).frames,
            rest: drained(drained(a).rest + b).rest,
        }),
    decreases a.len(),
{
    match front(a) {
        Front::Whole { frame, rest } => {
            cuts_do_not_matter(rest, b);
            let len = wire::le_value(a.take(4));
            assert((a + b).take(4) =~= a.take(4));
            assert((a + b).subrange(5, 5 + len as int) =~= a.subrange(5, 5 + len as int));
            assert((a + b).skip(5 + len as int) =~= rest + b);
            assert(front(a + b) == (Front::Whole { frame, rest: rest + b }));
            let d = drained(rest);
            let e = drained(d.rest + b);
            assert(seq![frame] + (d.frames + e.frames) =~= (seq![frame] + d.frames) + e.frames);
        },
        _ => {
            assert(drained(a).frames + drained(a + b).frames =~= drained(a + b).frames);
        },
    }
}

// Frame bodies, engine to logic server.

/// `version u16, caps u32`
pub open spec fn hello_body(version: u16, caps: u32) -> Seq<u8> {
    wire::le_bytes(version as nat, 2) + wire::le_bytes(caps as nat, 4)
}

/// Builds the body of either hello.
fn hello(version: u16, caps: u32) -> (body: Vec<u8>)
    ensures
        body@ == hello_body(version, caps),
        body@.len() == 6,
{
    let mut body: Vec<u8> = Vec::new();
    put_u16(&mut body, version);
    put_u32(&mut body, caps);
    assert(body@ =~= hello_body(version, caps));
    proof {
        wire::le_bytes_len(version as nat, 2);
        wire::le_bytes_len(caps as nat, 4);
    }
    body
}

/// Appends an `EngineHello` frame.
pub fn engine_hello(version: u16, caps: u32, out: &mut BytesMut) -> (r: Result<()>)
    requires
        outside::buffered(*old(out)).len() + 11 <= isize::MAX,
    ensures
        r == Ok::<(), Error>(()),
        outside::buffered(*final(out)) == outside::buffered(*old(out)) + link_bytes(
            LinkFrame { ty: FRAME_ENGINE_HELLO, body: hello_body(version, caps) },
        ),
{
    let body = hello(version, caps);
    encode(FRAME_ENGINE_HELLO, body.as_slice(), out)
}

/// Appends a `LogicHello` frame.
pub fn logic_hello(version: u16, caps: u32, out: &mut BytesMut) -> (r: Result<()>)
    requires
        outside::buffered(*old(out)).len() + 11 <= isize::MAX,
    ensures
        r == Ok::<(), Error>(()),
        outside::buffered(*final(out)) == outside::buffered(*old(out)) + link_bytes(
            LinkFrame { ty: FRAME_LOGIC_HELLO, body: hello_body(version, caps) },
        ),
{
    let body = hello(version, caps);
    encode(FRAME_LOGIC_HELLO, body.as_slice(), out)
}

/// `sess_id u64, addr [u8; 18], token_len u16, token`; the length is cut to 16 bits.
pub open spec fn session_open_body(sess_id: u64, addr: PeerAddr, token: Seq<u8>) -> Seq<u8> {
    wire::le_bytes(sess_id as nat, 8) + addr::addr_bytes(addr) + wire::le_bytes(
        token.len() % 0x1_0000,
        2,
    ) + token
}

/// Reads a `SessionOpen` body.
pub open spec fn session_open_of(
    s: Seq<u8>,
) -> std::result::Result<(u64, PeerAddr, Seq<u8>), ProtocolError> {
    let token_len = wire::le_value(s.subrange(26, 28)) as int;
    if s.len() < 28 {
        Err(ProtocolError::BodyTooShort)
    } else if 28 + token_len > s.len() {
        Err(ProtocolError::TokenTruncated)
    } else {
        Ok(
            (
                wire::le_value(s.subrange(0, 8)) as u64,
                addr::addr_of(s.subrange(8, 26)),
                s.subrange(28, 28 + token_len),
            ),
        )
    }
}

/// A `SessionOpen` frame.
pub fn session_open(sess_id: u64, addr: &PeerAddr, token: &[u8]) -> (f: Frame)
    ensures
        f@ == (LinkFrame {
            ty: FRAME_SESSION_OPEN,
            body: session_open_body(sess_id, *addr, token@),
        }),
{
    let mut body: Vec<u8> = Vec::new();
    let len: usize = token.len();
    assert(len as u16 == len % 0x1_0000) by (bit_vector);
    put_u64(&mut body, sess_id);
    let a = encode_addr(addr);
    put_bytes(&mut body, &a);
    put_u16(&mut body, len as u16);
    put_bytes(&mut body, token);
    assert(body@ =~= session_open_body(sess_id, *addr, token@));
    Frame::new(FRAME_SESSION_OPEN, body)
}

/// Reads a `SessionOpen` body: session, address, token.
pub fn parse_session_open(body: &[u8]) -> (r: Result<(u64, Option<PeerAddr>, &[u8])>)
    ensures
        match session_open_of(body@) {
            Ok(v) => r matches Ok(x) && x.0 == v.0 && x.1 == Some(v.1) && x.2@ == v.2,
            Err(e) => r == Err::<(u64, Option<PeerAddr>, &[u8]), Error>(Error::Protocol(e)),
        },
{
    if body.len() < 8 + ADDR_LEN + 2 {
        return Err(Error::Protocol(ProtocolError::BodyTooShort));
    }
    let sess_id: u64 = get_u64(body, 0);
    let addr_part = vstd::slice::slice_subrange(body, 8, 26);
    let addr = decode_addr(addr_part);
    assert(addr_part@.take(18) =~= body@.subrange(8, 26));
    let token_len: usize = get_u16(body, 26) as usize;
    if token_len > body.len() - 28 {
        return Err(Error::Protocol(ProtocolError::TokenTruncated));
    }
    Ok((sess_id, addr, vstd::slice::slice_subrange(body, 28, 28 + token_len)))
}

/// A `SessionOpen` body is read as it was built, if the token's length fits its field and the
/// address has a link form.
pub proof fn session_open_round_trip(sess_id: u64, addr: PeerAddr, token: Seq<u8>)
    requires
        token.len() < 0x1_0000,
        addr::has_link_form(addr),
    ensures
        session_open_of(session_open_body(sess_id, addr, token)) == Ok::<
            (u64, PeerAddr, Seq<u8>),
            ProtocolError,
        >((sess_id, addr, token)),
{
    let s = session_open_body(sess_id, addr, token);
    wire::pow256_values();
    wire::le_bytes_len(sess_id as nat, 8);
    wire::le_bytes_len(token.len() % 0x1_0000, 2);
    addr::addr_survives_the_link(addr);
    wire::le_value_of_le_bytes(sess_id as nat, 8);
    wire::le_value_of_le_bytes(token.len(), 2);
    assert(s.subrange(0, 8) =~= wire::le_bytes(sess_id as nat, 8));
    assert(s.subrange(8, 26) =~= addr::addr_bytes(addr));
    assert(s.subrange(26, 28) =~= wire::le_bytes(token.len(), 2));
    assert(s.subrange(28, 28 + token.len() as int) =~= token);
}

/// `sess_id u64, reason u8`
pub open spec fn session_close_body(sess_id: u64, reason: u8) -> Seq<u8> {
    wire::le_bytes(sess_id as nat, 8) + seq![reason]
}

/// Reads a `SessionClose` or a `Kick` body.
pub open spec fn session_close_of(s: Seq<u8>) -> std::result::Result<(u64, u8), ProtocolError> {
    if s.len() < 9 {
        Err(ProtocolError::BodyTooShort)
    } else {
        Ok((wire::le_value(s.subrange(0, 8)) as u64, s[8]))
    }
}

/// A `SessionClose` frame.
pub fn session_close(sess_id: u64, reason: u8) -> (f: Frame)
    ensures
        f@ == (LinkFrame { ty: FRAME_SESSION_CLOSE, body: session_close_body(sess_id, reason) }),
{
    let mut body: Vec<u8> = Vec::new();
    put_u64(&mut body, sess_id);
    body.push(reason);
    assert(body@ =~= session_close_body(sess_id, reason));
    Frame::new(FRAME_SESSION_CLOSE, body)
}

/// Reads a `SessionClose` or a `Kick` body: session, reason.
pub fn parse_session_close(body: &[u8]) -> (r: Result<(u64, u8)>)
    ensures
        match session_close_of(body@) {
            Ok(v) => r == Ok::<(u64, u8), Error>(v),
            Err(e) => r == Err::<(u64, u8), Error>(Error::Protocol(e)),
        },
{
    if body.len() < 9 {
        return Err(Error::Protocol(ProtocolError::BodyTooShort));
    }
    Ok((get_u64(body, 0), body[8]))
}

/// A `SessionClose` or `Kick` body is read as it was built.
pub proof fn session_close_round_trip(sess_id: u64, reason: u8)
    ensures
        session_close_of(session_close_body(sess_id, reason)) == Ok::<(u64, u8), ProtocolError>(
            (sess_id, reason),
        ),
{
    let s = session_close_body(sess_id, reason);
    wire::pow256_values();
    wire::le_bytes_len(sess_id as nat, 8);
    wire::le_value_of_le_bytes(sess_id as nat, 8);
    assert(s.subrange(0, 8) =~= wire::le_bytes(sess_id as nat, 8));
}

/// `sess_id u64, gap_ms u32`
pub open spec fn session_resume_body(sess_id: u64, gap_ms: u32) -> Seq<u8> {
    wire::le_bytes(sess_id as nat, 8) + wire::le_bytes(gap_ms as nat, 4)
}

/// Reads a `SessionResume` body.
pub open spec fn session_resume_of(s: Seq<u8>) -> std::result::Result<(u64, u32), ProtocolError> {
    if s.len() < 12 {
        Err(ProtocolError::BodyTooShort)
    } else {
        Ok((wire::le_value(s.subrange(0, 8)) as u64, wire::le_value(s.subrange(8, 12)) as u32))
    }
}

/// A `SessionResume` frame.
pub fn session_resume(sess_id: u64, gap_ms: u32) -> (f: Frame)
    ensures
        f@ == (LinkFrame { ty: FRAME_SESSION_RESUME, body: session_resume_body(sess_id, gap_ms) }),
{
    let mut body: Vec<u8> = Vec::new();
    put_u64(&mut body, sess_id);
    put_u32(&mut body, gap_ms);
    assert(body@ =~= session_resume_body(sess_id, gap_ms));
    Frame::new(FRAME_SESSION_RESUME, body)
}

/// Reads a `SessionResume` body: session, length of the gap in milliseconds.
pub fn parse_session_resume(body: &[u8]) -> (r: Result<(u64, u32)>)
    ensures
        match session_resume_of(body@) {
            Ok(v) => r == Ok::<(u64, u32), Error>(v),
            Err(e) => r == Err::<(u64, u32), Error>(Error::Protocol(e)),
        },
{
    if body.len() < 12 {
        return Err(Error::Protocol(ProtocolError::BodyTooShort));
    }
    Ok((get_u64(body, 0), get_u32(body, 8)))
}

/// A `SessionResume` body is read as it was built.
pub proof fn session_resume_round_trip(sess_id: u64, gap_ms: u32)
    ensures
        session_resume_of(session_resume_body(sess_id, gap_ms)) == Ok::<(u64, u32), ProtocolError>(
            (sess_id, gap_ms),
        ),
{
    let s = session_resume_body(sess_id, gap_ms);
    wire::pow256_values();
    wire::le_bytes_len(sess_id as nat, 8);
    wire::le_bytes_len(gap_ms as nat, 4);
    wire::le_value_of_le_bytes(sess_id as nat, 8);
    wire::le_value_of_le_bytes(gap_ms as nat, 4);
    assert(s.subrange(0, 8) =~= wire::le_bytes(sess_id as nat, 8));
    assert(s.subrange(8, 12) =~= wire::le_bytes(gap_ms as nat, 4));
}

/// `sess_id u64, ch u8, msg_id u16, payload`
pub open spec fn data_body(sess_id: u64, ch: u8, msg_id: u16, payload: Seq<u8>) -> Seq<u8> {
    wire::le_bytes(sess_id as nat, 8) + seq![ch] + wire::le_bytes(msg_id as nat, 2) + payload
}

/// Reads a `Data` or a `Send` body.
pub open spec fn data_of(
    s: Seq<u8>,
) -> std::result::Result<(u64, u8, u16, Seq<u8>), ProtocolError> {
    if s.len() < 11 {
        Err(ProtocolError::BodyTooShort)
    } else {
        Ok(
            (
                wire::le_value(s.subrange(0, 8)) as u64,
                s[8],
                wire::le_value(s.subrange(9, 11)) as u16,
                s.skip(11),
            ),
        )
    }
}

/// A `Data` frame.
pub fn data_up(sess_id: u64, ch: u8, msg_id: u16, payload: &[u8]) -> (f: Frame)
    ensures
        f@ == (LinkFrame { ty: FRAME_DATA_UP, body: data_body(sess_id, ch, msg_id, payload@) }),
{
    let mut body: Vec<u8> = Vec::new();
    put_u64(&mut body, sess_id);
    body.push(ch);
    put_u16(&mut body, msg_id);
    put_bytes(&mut body, payload);
    assert(body@ =~= data_body(sess_id, ch, msg_id, payload@));
    Frame::new(FRAME_DATA_UP, body)
}

/// Reads a `Data` or a `Send` body: session, channel, message id, payload.
pub fn parse_data(body: &[u8]) -> (r: Result<(u64, u8, u16, &[u8])>)
    ensures
        match data_of(body@) {
            Ok(v) => r matches Ok(x) && x.0 == v.0 && x.1 == v.1 && x.2 == v.2 && x.3@ == v.3,
            Err(e) => r == Err::<(u64, u8, u16, &[u8]), Error>(Error::Protocol(e)),
        },
{
    if body.len() < 11 {
        return Err(Error::Protocol(ProtocolError::BodyTooShort));
    }
    let payload = vstd::slice::slice_subrange(body, 11, body.len());
    assert(payload@ =~= body@.skip(11));
    Ok((get_u64(body, 0), body[8], get_u16(body, 9), payload))
}

/// A `Data` or `Send` body is read as it was built.
pub proof fn data_round_trip(sess_id: u64, ch: u8, msg_id: u16, payload: Seq<u8>)
    ensures
        data_of(data_body(sess_id, ch, msg_id, payload)) == Ok::<
            (u64, u8, u16, Seq<u8>),
            ProtocolError,
        >((sess_id, ch, msg_id, payload)),
{
    let s = data_body(sess_id, ch, msg_id, payload);
    wire::pow256_values();
    wire::le_bytes_len(sess_id as nat, 8);
    wire::le_bytes_len(msg_id as nat, 2);
    wire::le_value_of_le_bytes(sess_id as nat, 8);
    wire::le_value_of_le_bytes(msg_id as nat, 2);
    assert(s.subrange(0, 8) =~= wire::le_bytes(sess_id as nat, 8));
    assert(s.subrange(9, 11) =~= wire::le_bytes(msg_id as nat, 2));
    assert(s.skip(11) =~= payload);
}

/// `sess_id u64, rtt_ms u16, loss_permille u16, out_kbps u16`
pub open spec fn session_stats_body(
    sess_id: u64,
    rtt_ms: u16,
    loss_permille: u16,
    out_kbps: u16,
) -> Seq<u8> {
    wire::le_bytes(sess_id as nat, 8) + wire::le_bytes(rtt_ms as nat, 2) + wire::le_bytes(
        loss_permille as nat,
        2,
    ) + wire::le_bytes(out_kbps as nat, 2)
}

/// A `SessionStats` frame.
pub fn session_stats(sess_id: u64, rtt_ms: u16, loss_permille: u16, out_kbps: u16) -> (f: Frame)
    ensures
        f@ == (LinkFrame {
            ty: FRAME_SESSION_STATS,
            body: session_stats_body(sess_id, rtt_ms, loss_permille, out_kbps),
        }),
{
    let mut body: Vec<u8> = Vec::new();
    put_u64(&mut body, sess_id);
    put_u16(&mut body, rtt_ms);
    put_u16(&mut body, loss_permille);
    put_u16(&mut body, out_kbps);
    assert(body@ =~= session_stats_body(sess_id, rtt_ms, loss_permille, out_kbps));
    Frame::new(FRAME_SESSION_STATS, body)
}

/// `dropped_up u32, dropped_down u32`
pub open spec fn overload_body(dropped_up: u32, dropped_down: u32) -> Seq<u8> {
    wire::le_bytes(dropped_up as nat, 4) + wire::le_bytes(dropped_down as nat, 4)
}

/// An `Overload` frame.
pub fn overload(dropped_up: u32, dropped_down: u32) -> (f: Frame)
    ensures
        f@ == (LinkFrame { ty: FRAME_OVERLOAD, body: overload_body(dropped_up, dropped_down) }),
{
    let mut body: Vec<u8> = Vec::new();
    put_u32(&mut body, dropped_up);
    put_u32(&mut body, dropped_down);
    assert(body@ =~= overload_body(dropped_up, dropped_down));
    Frame::new(FRAME_OVERLOAD, body)
}

// Frame bodies, logic server to engine.

/// A `Send` frame.
pub fn send(sess_id: u64, ch: u8, msg_id: u16, payload: &[u8]) -> (f: Frame)
    ensures
        f@ == (LinkFrame { ty: FRAME_SEND, body: data_body(sess_id, ch, msg_id, payload@) }),
{
    data_up(sess_id, ch, msg_id, payload).into_send()
}

/// Session ids, eight bytes each.
pub open spec fn ids_bytes(ids: Seq<u64>) -> Seq<u8>
    decreases ids.len(),
{
    if ids.len() == 0 {
        Seq::empty()
    } else {
        ids_bytes(ids.drop_last()) + wire::le_bytes(ids.last() as nat, 8)
    }
}

/// `n u8, sess_id u64 (n times), ch u8, msg_id u16, payload`; the count is cut to 8 bits.
pub open spec fn multicast_body(ids: Seq<u64>, ch: u8, msg_id: u16, payload: Seq<u8>) -> Seq<u8> {
    seq![(ids.len() % 0x100) as u8] + ids_bytes(ids) + seq![ch] + wire::le_bytes(msg_id as nat, 2)
        + payload
}

/// Reads a `Multicast` body.
pub open spec fn multicast_of(
    s: Seq<u8>,
) -> std::result::Result<(Seq<u64>, u8, u16, Seq<u8>), ProtocolError> {
    let n = s[0] as nat;
    let end = 1 + 8 * n as int;
    if s.len() == 0 || s.len() < end + 3 {
        Err(ProtocolError::BodyTooShort)
    } else {
        Ok(
            (
                Seq::new(n, |i: int| wire::le_value(s.subrange(1 + 8 * i, 9 + 8 * i)) as u64),
                s[end],
                wire::le_value(s.subrange(end + 1, end + 3)) as u16,
                s.skip(end + 3),
            ),
        )
    }
}

/// A `Multicast` frame.
pub fn multicast(ids: &[u64], ch: u8, msg_id: u16, payload: &[u8]) -> (f: Frame)
    ensures
        f@ == (LinkFrame {
            ty: FRAME_MULTICAST,
            body: multicast_body(ids@, ch, msg_id, payload@),
        }),
{
    let mut body: Vec<u8> = Vec::new();
    let n: usize = ids.len();
    assert(n as u8 == n % 0x100) by (bit_vector);
    body.push(n as u8);
    let ghost head = seq![(n % 0x100) as u8];
    let mut i: usize = 0;
    while i < ids.len()
        invariant
            i <= ids@.len(),
            body@ =~= head + ids_bytes(ids@.take(i as int)),
        decreases ids@.len() - i,
    {
        put_u64(&mut body, ids[i]);
        i = i + 1;
        assert(ids@.take(i as int).drop_last() =~= ids@.take(i - 1));
    }
    assert(ids@.take(i as int) =~= ids@);
    body.push(ch);
    put_u16(&mut body, msg_id);
    put_bytes(&mut body, payload);
    assert(body@ =~= multicast_body(ids@, ch, msg_id, payload@));
    Frame::new(FRAME_MULTICAST, body)
}

/// Reads a `Multicast` body: sessions, channel, message id, payload.
pub fn parse_multicast(body: &[u8]) -> (r: Result<(Vec<u64>, u8, u16, &[u8])>)
    ensures
        match multicast_of(body@) {
            Ok(v) => r matches Ok(x) && x.0@ == v.0 && x.1 == v.1 && x.2 == v.2 && x.3@ == v.3,
            Err(e) => r == Err::<(Vec<u64>, u8, u16, &[u8]), Error>(Error::Protocol(e)),
        },
{
    if body.len() == 0 {
        return Err(Error::Protocol(ProtocolError::BodyTooShort));
    }
    let n: usize = body[0] as usize;
    let ids_end: usize = 1 + n * 8;
    if body.len() < ids_end + 3 {
        return Err(Error::Protocol(ProtocolError::BodyTooShort));
    }
    let mut ids: Vec<u64> = Vec::new();
    let mut i: usize = 0;
    while i < n
        invariant
            i <= n <= 255,
            1 + n * 8 <= body@.len(),
            ids@.len() == i,
            forall|k: int|
                0 <= k < i ==> #[trigger] ids@[k] == wire::le_value(
                    body@.subrange(1 + 8 * k, 9 + 8 * k),
                ),
        decreases n - i,
    {
        ids.push(get_u64(body, 1 + i * 8));
        i = i + 1;
    }
    let payload = vstd::slice::slice_subrange(body, ids_end + 3, body.len());
    assert(payload@ =~= body@.skip(ids_end + 3));
    proof {
        let want = Seq::new(
            n as nat,
            |i: int| wire::le_value(body@.subrange(1 + 8 * i, 9 + 8 * i)) as u64,
        );
        assert(ids@ =~= want);
    }
    Ok((ids, body[ids_end], get_u16(body, ids_end + 1), payload))
}

/// Where each id stands among the bytes of many.
pub proof fn ids_bytes_at(ids: Seq<u64>)
    ensures
        ids_bytes(ids).len() == 8 * ids.len(),
        forall|i: int|
            0 <= i < ids.len() ==> ids_bytes(ids).subrange(8 * i, 8 * i + 8) == wire::le_bytes(
                #[trigger] ids[i] as nat,
                8,
            ),
    decreases ids.len(),
{
    if ids.len() > 0 {
        let init = ids.drop_last();
        ids_bytes_at(init);
        wire::le_bytes_len(ids.last() as nat, 8);
        assert forall|i: int| 0 <= i < ids.len() implies ids_bytes(ids).subrange(8 * i, 8 * i + 8)
            == wire::le_bytes(#[trigger] ids[i] as nat, 8) by {
            if i < init.len() {
                assert(init[i] == ids[i]);
                assert(ids_bytes(ids).subrange(8 * i, 8 * i + 8) =~= ids_bytes(init).subrange(
                    8 * i,
                    8 * i + 8,
                ));
            } else {
                assert(ids_bytes(ids).subrange(8 * i, 8 * i + 8) =~= wire::le_bytes(
                    ids.last() as nat,
                    8,
                ));
            }
        }
    }
}

/// A `Multicast` body is read as it was built, if the number of sessions fits its field.
pub proof fn multicast_round_trip(ids: Seq<u64>, ch: u8, msg_id: u16, payload: Seq<u8>)
    requires
        ids.len() < 0x100,
    ensures
        multicast_of(multicast_body(ids, ch, msg_id, payload)) == Ok::<
            (Seq<u64>, u8, u16, Seq<u8>),
            ProtocolError,
        >((ids, ch, msg_id, payload)),
{
    let s = multicast_body(ids, ch, msg_id, payload);
    let end = 1 + 8 * ids.len() as int;
    ids_bytes_at(ids);
    wire::pow256_values();
    wire::le_bytes_len(msg_id as nat, 2);
    wire::le_value_of_le_bytes(msg_id as nat, 2);
    let got = Seq::new(
        ids.len(),
        |i: int| wire::le_value(s.subrange(1 + 8 * i, 9 + 8 * i)) as u64,
    );
    assert forall|i: int| 0 <= i < ids.len() implies #[trigger] got[i] == ids[i] by {
        assert(s.subrange(1 + 8 * i, 9 + 8 * i) =~= ids_bytes(ids).subrange(8 * i, 8 * i + 8));
        assert(ids_bytes(ids).subrange(8 * i, 8 * i + 8) == wire::le_bytes(ids[i] as nat, 8));
        wire::le_value_of_le_bytes(ids[i] as nat, 8);
    }
    assert(got =~= ids);
    assert(s.subrange(end + 1, end + 3) =~= wire::le_bytes(msg_id as nat, 2));
    assert(s.skip(end + 3) =~= payload);
}

/// A `Kick` frame.
pub fn kick(sess_id: u64, reason: u8) -> (f: Frame)
    ensures
        f@ == (LinkFrame { ty: FRAME_KICK, body: session_close_body(sess_id, reason) }),
{
    let close = session_close(sess_id, reason);
    Frame::new(FRAME_KICK, close.body)
}

/// `sess_id u64, kbps u16`
pub open spec fn set_budget_body(sess_id: u64, kbps: u16) -> Seq<u8> {
    wire::le_bytes(sess_id as nat, 8) + wire::le_bytes(kbps as nat, 2)
}

/// Reads a `SetBudget` body.
pub open spec fn set_budget_of(s: Seq<u8>) -> std::result::Result<(u64, u16), ProtocolError> {
    if s.len() < 10 {
        Err(ProtocolError::BodyTooShort)
    } else {
        Ok((wire::le_value(s.subrange(0, 8)) as u64, wire::le_value(s.subrange(8, 10)) as u16))
    }
}

/// A `SetBudget` frame.
pub fn set_budget(sess_id: u64, kbps: u16) -> (f: Frame)
    ensures
        f@ == (LinkFrame { ty: FRAME_SET_BUDGET, body: set_budget_body(sess_id, kbps) }),
{
    let mut body: Vec<u8> = Vec::new();
    put_u64(&mut body, sess_id);
    put_u16(&mut body, kbps);
    assert(body@ =~= set_budget_body(sess_id, kbps));
    Frame::new(FRAME_SET_BUDGET, body)
}

/// Reads a `SetBudget` body: session, kilobits per second.
pub fn parse_set_budget(body: &[u8]) -> (r: Result<(u64, u16)>)
    ensures
        match set_budget_of(body@) {
            Ok(v) => r == Ok::<(u64, u16), Error>(v),
            Err(e) => r == Err::<(u64, u16), Error>(Error::Protocol(e)),
        },
{
    if body.len() < 10 {
        return Err(Error::Protocol(ProtocolError::BodyTooShort));
    }
    Ok((get_u64(body, 0), get_u16(body, 8)))
}

/// A `SetBudget` body is read as it was built.
pub proof fn set_budget_round_trip(sess_id: u64, kbps: u16)
    ensures
        set_budget_of(set_budget_body(sess_id, kbps)) == Ok::<(u64, u16), ProtocolError>(
            (sess_id, kbps),
        ),
{
    let s = set_budget_body(sess_id, kbps);
    wire::pow256_values();
    wire::le_bytes_len(sess_id as nat, 8);
    wire::le_bytes_len(kbps as nat, 2);
    wire::le_value_of_le_bytes(sess_id as nat, 8);
    wire::le_value_of_le_bytes(kbps as nat, 2);
    assert(s.subrange(0, 8) =~= wire::le_bytes(sess_id as nat, 8));
    assert(s.subrange(8, 10) =~= wire::le_bytes(kbps as nat, 2));
}

} // verus!
