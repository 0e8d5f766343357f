//! Client datagrams.
//!
//! ```text
//! magic u16 | version u8 | flags u8 | conn_id u32 | seq u16 | ack u16 | ack_bits u32
//! then any number of message frames:
//!   ch u4, msg_id u12 (one u16) | len u16 | body
//! ```
//!
//! All integers are little-endian.

use vstd::prelude::*;

use crate::error::{Error, ProtocolError, Result};
use crate::protocol::types::{
    CH_UNRELIABLE_UNORDERED, FLAG_HANDSHAKE, MAGIC, MTU, VERSION,
};
use crate::wire::{get_u16, get_u32, put_bytes, put_u16, put_u32};

verus! {

/// The bytes of a datagram header.
pub const HEADER_LEN: usize = 16;

/// A datagram header.
#[derive(Debug, Clone, Copy, PartialEq, Eq, Structural)]
pub struct DatagramHeader {
    pub version: u8,
    pub flags: u8,
    pub conn_id: u32,
    /// The sender's sequence number.
    pub seq: u16,
    /// The last sequence number that the sender has delivered without a gap.
    pub ack: u16,
    /// Which of the 32 sequence numbers after `ack` the sender has received.
    pub ack_bits: u32,
}

/// A message frame that borrows its body from the datagram.
#[derive(Debug, Clone, Copy, PartialEq, Eq)]
pub struct FrameRef<'a> {
    pub ch: u8,
    pub msg_id: u16,
    pub body: &'a [u8],
}

/// What a message frame holds.
#[verifier::ext_equal]
pub struct FrameView {
    pub ch: u8,
    pub msg_id: u16,
    pub body: Seq<u8>,
}

impl<'a> View for FrameRef<'a> {
    type V = FrameView;

    open spec fn view(&self) -> FrameView {
        FrameView { ch: self.ch, msg_id: self.msg_id, body: self.body@ }
    }
}

/// What a list of message frames holds.
pub open spec fn frame_views(frames: Seq<FrameRef>) -> Seq<FrameView> {
    Seq::new(frames.len(), |i: int| frames[i]@)
}

impl<'a> FrameRef<'a> {
    pub fn new(ch: u8, msg_id: u16, body: &'a [u8]) -> (r: Self)
        ensures
            r@ == (FrameView { ch, msg_id, body: body@ }),
            r.body == body,
    {
        FrameRef { ch, msg_id, body }
    }

    /// Whether the frame is on the channel that handshakes use.
    pub fn is_handshake(&self) -> (r: bool)
        ensures
            r == (self.ch == CH_UNRELIABLE_UNORDERED),
    {
        self.ch == CH_UNRELIABLE_UNORDERED
    }
}

/// The header of a datagram that a client sends before it has a session.
pub fn handshake_header() -> (h: DatagramHeader)
    ensures
        h == (DatagramHeader {
            version: VERSION,
            flags: FLAG_HANDSHAKE,
            conn_id: 0,
            seq: 0,
            ack: 0,
            ack_bits: 0,
        }),
{
    DatagramHeader {
        version: VERSION,
        flags: FLAG_HANDSHAKE,
        conn_id: 0,
        seq: 0,
        ack: 0,
        ack_bits: 0,
    }
}

/// The bytes of a header.
pub open spec fn header_bytes(h: DatagramHeader) -> Seq<u8> {
    crate::wire::le_bytes(MAGIC as nat, 2) + seq![h.version, h.flags]
        + crate::wire::le_bytes(h.conn_id as nat, 4)
        + crate::wire::le_bytes(h.seq as nat, 2)
        + crate::wire::le_bytes(h.ack as nat, 2)
        + crate::wire::le_bytes(h.ack_bits as nat, 4)
}

/// The bytes of one message frame.
pub open spec fn frame_bytes(f: FrameView) -> Seq<u8> {
    crate::wire::le_bytes((f.msg_id * 16 + f.ch) as nat, 2)
        + crate::wire::le_bytes(f.body.len(), 2) + f.body
}

/// The bytes of message frames, one behind the other.
pub open spec fn frames_bytes(frames: Seq<FrameView>) -> Seq<u8>
    decreases frames.len(),
{
    if frames.len() == 0 {
        Seq::empty()
    } else {
        frame_bytes(frames[0]) + frames_bytes(frames.skip(1))
    }
}

/// The bytes of a datagram.
pub open spec fn datagram_bytes(h: DatagramHeader, frames: Seq<FrameView>) -> Seq<u8> {
    header_bytes(h) + frames_bytes(frames)
}

/// What keeps `frames` from following `total` bytes in one datagram: the first frame that
/// breaks a rule decides.
pub open spec fn frames_fault(frames: Seq<FrameView>, total: nat) -> Option<ProtocolError>
    decreases frames.len(),
{
    if frames.len() == 0 {
        None
    } else {
        let f = frames[0];
        let next = total + 4 + f.body.len();
        if f.ch > 3 {
            Some(ProtocolError::BadChannel { ch: f.ch })
        } else if f.msg_id > 0x0FFF {
            Some(ProtocolError::BadMsgId { msg_id: f.msg_id })
        } else if next > usize::MAX {
            Some(ProtocolError::LengthOverflow)
        } else if next > MTU {
            Some(ProtocolError::DatagramOverMtu { len: next as usize })
        } else {
            frames_fault(frames.skip(1), next)
        }
    }
}

/// What keeps a header and frames from being one datagram.
pub open spec fn encode_fault(h: DatagramHeader, frames: Seq<FrameView>) -> Option<ProtocolError> {
    if h.version != VERSION {
        Some(ProtocolError::BadVersion { version: h.version })
    } else {
        frames_fault(frames, HEADER_LEN as nat)
    }
}

/// The header that the first bytes of a datagram spell.
pub open spec fn header_of(buf: Seq<u8>) -> DatagramHeader {
    DatagramHeader {
        version: buf[2],
        flags: buf[3],
        conn_id: crate::wire::le_value(buf.subrange(4, 8)) as u32,
        seq: crate::wire::le_value(buf.subrange(8, 10)) as u16,
        ack: crate::wire::le_value(buf.subrange(10, 12)) as u16,
        ack_bits: crate::wire::le_value(buf.subrange(12, 16)) as u32,
    }
}

/// The message frames from position `pos` to the end, or what is wrong with them.
pub open spec fn parse_frames(buf: Seq<u8>, pos: int) -> std::result::Result<
    Seq<FrameView>,
    ProtocolError,
>
    decreases buf.len() - pos,
{
    if pos >= buf.len() {
        Ok(Seq::empty())
    } else if buf.len() - pos < 4 {
        Err(ProtocolError::FrameHeaderTruncated { left: (buf.len() - pos) as usize })
    } else {
        let head = crate::wire::le_value(buf.subrange(pos, pos + 2));
        let len = crate::wire::le_value(buf.subrange(pos + 2, pos + 4));
        if head % 16 > 3 {
            Err(ProtocolError::BadChannel { ch: (head % 16) as u8 })
        } else if pos + 4 + len > buf.len() {
            Err(
                ProtocolError::FrameBodyTruncated {
                    len: len as usize,
                    left: (buf.len() - (pos + 4)) as usize,
                },
            )
        } else {
            prepend(
                seq![
                    FrameView {
                        ch: (head % 16) as u8,
                        msg_id: (head / 16) as u16,
                        body: buf.subrange(pos + 4, pos + 4 + len),
                    },
                ],
                parse_frames(buf, pos + 4 + len),
            )
        }
    }
}

/// The frames `front` in front of what a parse gave.
pub open spec fn prepend(
    front: Seq<FrameView>,
    rest: std::result::Result<Seq<FrameView>, ProtocolError>,
) -> std::result::Result<Seq<FrameView>, ProtocolError> {
    match rest {
        Ok(frames) => Ok(front + frames),
        Err(e) => Err(e),
    }
}

/// What a byte string means as a datagram.
pub open spec fn parse(buf: Seq<u8>) -> std::result::Result<
    (DatagramHeader, Seq<FrameView>),
    ProtocolError,
> {
    if buf.len() < HEADER_LEN {
        Err(ProtocolError::DatagramTooShort { len: buf.len() as usize })
    } else if buf.len() > MTU {
        Err(ProtocolError::DatagramOverMtu { len: buf.len() as usize })
    } else if crate::wire::le_value(buf.subrange(0, 2)) != MAGIC {
        Err(ProtocolError::BadMagic { magic: crate::wire::le_value(buf.subrange(0, 2)) as u16 })
    } else if buf[2] != VERSION {
        Err(ProtocolError::BadVersion { version: buf[2] })
    } else {
        match parse_frames(buf, HEADER_LEN as int) {
            Ok(frames) => Ok((header_of(buf), frames)),
            Err(e) => Err(e),
        }
    }
}

/// Appends the datagram of `header` and `frames` to `out` and returns its length. On an error
/// `out` stays as it was.
pub fn encode(header: &DatagramHeader, frames: &[FrameRef], out: &mut Vec<u8>) -> (r: Result<usize>)
    ensures
        match encode_fault(*header, frame_views(frames@)) {
            Some(e) => r == Err::<usize, Error>(Error::Protocol(e)) && final(out)@ == old(out)@,
            None => {
                &&& final(out)@ == old(out)@ + datagram_bytes(*header, frame_views(frames@))
                &&& r matches Ok(n) && n == datagram_bytes(*header, frame_views(frames@)).len()
            },
        },
{
    let ghost views = frame_views(frames@);
    if header.version != VERSION {
        return Err(Error::Protocol(ProtocolError::BadVersion { version: header.version }));
    }
    let mut total: usize = HEADER_LEN;
    let mut i: usize = 0;
    assert(views.skip(0) =~= views);
    while i < frames.len()
        invariant
            i <= frames@.len(),
            views == frame_views(frames@),
            header.version == VERSION,
            HEADER_LEN <= total <= MTU,
            frames_fault(views.skip(i as int), total as nat) == frames_fault(
                views,
                HEADER_LEN as nat,
            ),
            frames_bytes(views.skip(i as int)).len() + total == frames_bytes(views).len()
                + HEADER_LEN,
            out@ == old(out)@,
        decreases frames@.len() - i,
    {
        let f = &frames[i];
        proof {
            assert(views.skip(i as int)[0] == f@);
            assert(views.skip(i as int).skip(1) =~= views.skip(i + 1));
            crate::wire::le_bytes_len((f.msg_id * 16 + f.ch) as nat, 2);
            crate::wire::le_bytes_len(f.body@.len(), 2);
        }
        if f.ch > 3 {
            return Err(Error::Protocol(ProtocolError::BadChannel { ch: f.ch }));
        }
        if f.msg_id > 0x0FFF {
            return Err(Error::Protocol(ProtocolError::BadMsgId { msg_id: f.msg_id }));
        }
        let len = f.body.len();
        if len > usize::MAX - 4 - total {
            return Err(Error::Protocol(ProtocolError::LengthOverflow));
        }
        total = total + 4 + len;
        if total > MTU {
            return Err(Error::Protocol(ProtocolError::DatagramOverMtu { len: total }));
        }
        i = i + 1;
    }
    assert(views.skip(i as int) =~= Seq::empty());
    assert(frames_fault(views, HEADER_LEN as nat) is None);

    let ghost start = out@;
    put_u16(out, MAGIC);
    out.push(header.version);
    out.push(header.flags);
    put_u32(out, header.conn_id);
    put_u16(out, header.seq);
    put_u16(out, header.ack);
    put_u32(out, header.ack_bits);
    assert(out@ =~= start + header_bytes(*header));
    proof {
        header_bytes_len(*header);
        encodable_when_no_fault(views, HEADER_LEN as nat);
    }

    let mut j: usize = 0;
    assert(views.skip(0) =~= views);
    while j < frames.len()
        invariant
            j <= frames@.len(),
            views == frame_views(frames@),
            all_encodable(views.skip(j as int)),
            out@ + frames_bytes(views.skip(j as int)) =~= start + datagram_bytes(*header, views),
        decreases frames@.len() - j,
    {
        let f = &frames[j];
        let ghost before = out@;
        proof {
            assert(views.skip(j as int)[0] == f@);
            assert(views.skip(j as int).skip(1) =~= views.skip(j + 1));
        }
        put_u16(out, f.msg_id * 16 + f.ch as u16);
        put_u16(out, f.body.len() as u16);
        put_bytes(out, f.body);
        assert(out@ =~= before + frame_bytes(f@));
        j = j + 1;
    }
    assert(views.skip(j as int) =~= Seq::empty());
    assert(out@ =~= start + datagram_bytes(*header, views));
    Ok(total)
}

/// Decodes one whole datagram. The frames borrow from `buf`.
pub fn decode<'a>(buf: &'a [u8]) -> (r: Result<(DatagramHeader, Vec<FrameRef<'a>>)>)
    ensures
        match parse(buf@) {
            Ok((h, frames)) => r matches Ok(d) && d.0 == h && frame_views(d.1@) == frames,
            Err(e) => r matches Err(Error::Protocol(x)) && x == e,
        },
{
    if buf.len() < HEADER_LEN {
        return Err(Error::Protocol(ProtocolError::DatagramTooShort { len: buf.len() }));
    }
    if buf.len() > MTU {
        return Err(Error::Protocol(ProtocolError::DatagramOverMtu { len: buf.len() }));
    }
    let magic: u16 = get_u16(buf, 0);
    if magic != MAGIC {
        return Err(Error::Protocol(ProtocolError::BadMagic { magic }));
    }
    let version: u8 = buf[2];
    if version != VERSION {
        return Err(Error::Protocol(ProtocolError::BadVersion { version }));
    }
    let header = DatagramHeader {
        version,
        flags: buf[3],
        conn_id: get_u32(buf, 4),
        seq: get_u16(buf, 8),
        ack: get_u16(buf, 10),
        ack_bits: get_u32(buf, 12),
    };

    let mut frames: Vec<FrameRef<'a>> = Vec::new();
    let mut pos: usize = HEADER_LEN;
    proof {
        if let Ok(rest) = parse_frames(buf@, HEADER_LEN as int) {
            assert(frame_views(frames@) + rest =~= rest);
        }
    }
    while pos < buf.len()
        invariant
            HEADER_LEN <= pos <= buf@.len() <= MTU,
            buf@.len() >= HEADER_LEN,
            crate::wire::le_value(buf@.subrange(0, 2)) == MAGIC,
            buf@[2] == VERSION,
            header == header_of(buf@),
            parse_frames(buf@, HEADER_LEN as int) == prepend(
                frame_views(frames@),
                parse_frames(buf@, pos as int),
            ),
        decreases buf@.len() - pos,
    {
        let left: usize = buf.len() - pos;
        if left < 4 {
            return Err(Error::Protocol(ProtocolError::FrameHeaderTruncated { left }));
        }
        let head: u16 = get_u16(buf, pos);
        let len: usize = get_u16(buf, pos + 2) as usize;
        let ch: u8 = (head % 16) as u8;
        if ch > 3 {
            return Err(Error::Protocol(ProtocolError::BadChannel { ch }));
        }
        let body_start: usize = pos + 4;
        let body_end: usize = body_start + len;
        if body_end > buf.len() {
            return Err(
                Error::Protocol(
                    ProtocolError::FrameBodyTruncated { len, left: buf.len() - body_start },
                ),
            );
        }
        let body: &'a [u8] = vstd::slice::slice_subrange(buf, body_start, body_end);
        let ghost before = frame_views(frames@);
        let frame = FrameRef { ch, msg_id: head / 16, body };
        frames.push(frame);
        proof {
            assert(frame_views(frames@) =~= before + seq![frame@]);
            if let Ok(rest) = parse_frames(buf@, body_end as int) {
                assert(before + (seq![frame@] + rest) =~= frame_views(frames@) + rest);
            }
        }
        pos = body_end;
    }
    assert(frame_views(frames@) + Seq::empty() =~= frame_views(frames@));
    Ok((header, frames))
}

/// Whether every frame can be written: its channel, its message id and its length fit.
pub open spec fn all_encodable(frames: Seq<FrameView>) -> bool {
    forall|i: int| 0 <= i < frames.len() ==> encodable(#[trigger] frames[i])
}

/// Whether a frame's channel, message id and length fit in their fields.
pub open spec fn encodable(f: FrameView) -> bool {
    f.ch <= 3 && f.msg_id <= 0x0FFF && f.body.len() <= MTU
}

/// A header takes `HEADER_LEN` bytes.
pub proof fn header_bytes_len(h: DatagramHeader)
    ensures
        header_bytes(h).len() == HEADER_LEN,
{
    crate::wire::le_bytes_len(MAGIC as nat, 2);
    crate::wire::le_bytes_len(h.conn_id as nat, 4);
    crate::wire::le_bytes_len(h.seq as nat, 2);
    crate::wire::le_bytes_len(h.ack as nat, 2);
    crate::wire::le_bytes_len(h.ack_bits as nat, 4);
}

/// Frames without a fault can be written, and they fit behind the first `total` bytes.
pub proof fn encodable_when_no_fault(frames: Seq<FrameView>, total: nat)
    requires
        frames_fault(frames, total) is None,
    ensures
        all_encodable(frames),
        frames.len() > 0 ==> total + frames_bytes(frames).len() <= MTU,
    decreases frames.len(),
{
    if frames.len() > 0 {
        let f = frames[0];
        let rest = frames.skip(1);
        encodable_when_no_fault(rest, total + 4 + f.body.len());
        crate::wire::le_bytes_len((f.msg_id * 16 + f.ch) as nat, 2);
        crate::wire::le_bytes_len(f.body.len(), 2);
        assert forall|i: int| 0 <= i < frames.len() implies encodable(#[trigger] frames[i]) by {
            if i > 0 {
                assert(frames[i] == rest[i - 1]);
            }
        }
        if rest.len() == 0 {
            assert(frames_bytes(rest).len() == 0);
        }
    }
}

/// Frames that can be written and that fit behind `total` bytes have no fault.
pub proof fn no_fault_when_encodable(frames: Seq<FrameView>, total: nat)
    requires
        all_encodable(frames),
        total + frames_bytes(frames).len() <= MTU,
    ensures
        frames_fault(frames, total) is None,
    decreases frames.len(),
{
    if frames.len() > 0 {
        let f = frames[0];
        let rest = frames.skip(1);
        assert(encodable(f));
        crate::wire::le_bytes_len((f.msg_id * 16 + f.ch) as nat, 2);
        crate::wire::le_bytes_len(f.body.len(), 2);
        assert(all_encodable(rest)) by {
            assert forall|i: int| 0 <= i < rest.len() implies encodable(#[trigger] rest[i]) by {
                assert(rest[i] == frames[i + 1]);
            }
        }
        no_fault_when_encodable(rest, total + 4 + f.body.len());
    }
}

/// The frames behind any first part of a byte string parse back to themselves.
pub proof fn parse_frames_of_bytes(front: Seq<u8>, frames: Seq<FrameView>)
    requires
        all_encodable(frames),
    ensures
        parse_frames(front + frames_bytes(frames), front.len() as int) == Ok::<
            Seq<FrameView>,
            ProtocolError,
        >(frames),
    decreases frames.len(),
{
    let buf = front + frames_bytes(frames);
    let pos = front.len() as int;
    if frames.len() == 0 {
        assert(frames =~= Seq::empty());
    } else {
        let f = frames[0];
        let rest = frames.skip(1);
        assert(encodable(f));
        let head = (f.msg_id * 16 + f.ch) as nat;
        let len = f.body.len();
        crate::wire::le_bytes_len(head, 2);
        crate::wire::le_bytes_len(len, 2);
        crate::wire::pow256_values();
        crate::wire::le_value_of_le_bytes(head, 2);
        crate::wire::le_value_of_le_bytes(len, 2);
        assert(buf.subrange(pos, pos + 2) =~= crate::wire::le_bytes(head, 2));
        assert(buf.subrange(pos + 2, pos + 4) =~= crate::wire::le_bytes(len, 2));
        assert(buf.subrange(pos + 4, pos + 4 + len) =~= f.body);
        assert(head % 16 == f.ch && head / 16 == f.msg_id);
        assert(all_encodable(rest)) by {
            assert forall|i: int| 0 <= i < rest.len() implies encodable(#[trigger] rest[i]) by {
                assert(rest[i] == frames[i + 1]);
            }
        }
        let front2 = front + frame_bytes(f);
        assert(front2 + frames_bytes(rest) =~= buf);
        parse_frames_of_bytes(front2, rest);
        assert(seq![f] + rest =~= frames);
    }
}

/// The frames that a byte string parses to are the bytes it holds from there on.
pub proof fn bytes_of_parse_frames(buf: Seq<u8>, pos: int)
    requires
        0 <= pos <= buf.len() <= MTU,
        parse_frames(buf, pos) is Ok,
    ensures
        frames_bytes(parse_frames(buf, pos)->Ok_0) == buf.skip(pos),
        all_encodable(parse_frames(buf, pos)->Ok_0),
    decreases buf.len() - pos,
{
    let frames = parse_frames(buf, pos)->Ok_0;
    if pos < buf.len() {
        let s0 = buf.subrange(pos, pos + 2);
        let s1 = buf.subrange(pos + 2, pos + 4);
        let head = crate::wire::le_value(s0);
        let len = crate::wire::le_value(s1);
        crate::wire::pow256_values();
        crate::wire::le_value_bound(s0);
        crate::wire::le_bytes_of_le_value(s0);
        crate::wire::le_bytes_of_le_value(s1);
        let end = pos + 4 + len;
        let rest = parse_frames(buf, end)->Ok_0;
        bytes_of_parse_frames(buf, end);
        assert(frames.skip(1) =~= rest);
        let f = frames[0];
        assert((f.msg_id * 16 + f.ch) as nat == head);
        assert(frame_bytes(f) + frames_bytes(rest) =~= buf.skip(pos));
        assert forall|i: int| 0 <= i < frames.len() implies encodable(#[trigger] frames[i]) by {
            if i > 0 {
                assert(frames[i] == rest[i - 1]);
            }
        }
    } else {
        assert(frames_bytes(frames) =~= buf.skip(pos));
    }
}

/// Decoding what was encoded gives the header and the frames back.
pub proof fn decode_inverts_encode(h: DatagramHeader, frames: Seq<FrameView>)
    requires
        encode_fault(h, frames) is None,
    ensures
        parse(datagram_bytes(h, frames)) == Ok::<
            (DatagramHeader, Seq<FrameView>),
            ProtocolError,
        >((h, frames)),
{
    let buf = datagram_bytes(h, frames);
    header_bytes_len(h);
    encodable_when_no_fault(frames, HEADER_LEN as nat);
    crate::wire::pow256_values();
    crate::wire::le_bytes_len(MAGIC as nat, 2);
    crate::wire::le_bytes_len(h.conn_id as nat, 4);
    crate::wire::le_bytes_len(h.seq as nat, 2);
    crate::wire::le_bytes_len(h.ack as nat, 2);
    crate::wire::le_bytes_len(h.ack_bits as nat, 4);
    crate::wire::le_value_of_le_bytes(MAGIC as nat, 2);
    crate::wire::le_value_of_le_bytes(h.conn_id as nat, 4);
    crate::wire::le_value_of_le_bytes(h.seq as nat, 2);
    crate::wire::le_value_of_le_bytes(h.ack as nat, 2);
    crate::wire::le_value_of_le_bytes(h.ack_bits as nat, 4);
    assert(buf.subrange(0, 2) =~= crate::wire::le_bytes(MAGIC as nat, 2));
    assert(buf.subrange(4, 8) =~= crate::wire::le_bytes(h.conn_id as nat, 4));
    assert(buf.subrange(8, 10) =~= crate::wire::le_bytes(h.seq as nat, 2));
    assert(buf.subrange(10, 12) =~= crate::wire::le_bytes(h.ack as nat, 2));
    assert(buf.subrange(12, 16) =~= crate::wire::le_bytes(h.ack_bits as nat, 4));
    parse_frames_of_bytes(header_bytes(h), frames);
    if frames.len() == 0 {
        assert(frames_bytes(frames).len() == 0);
    }
}

/// A datagram that decodes is the encoding of what it decodes to, so no two datagrams mean
/// the same.
pub proof fn encode_inverts_decode(buf: Seq<u8>)
    requires
        parse(buf) is Ok,
    ensures
        encode_fault(parse(buf)->Ok_0.0, parse(buf)->Ok_0.1) is None,
        datagram_bytes(parse(buf)->Ok_0.0, parse(buf)->Ok_0.1) == buf,
{
    let (h, frames) = parse(buf)->Ok_0;
    bytes_of_parse_frames(buf, HEADER_LEN as int);
    header_bytes_len(h);
    crate::wire::pow256_values();
    crate::wire::le_bytes_of_le_value(buf.subrange(0, 2));
    crate::wire::le_bytes_of_le_value(buf.subrange(4, 8));
    crate::wire::le_bytes_of_le_value(buf.subrange(8, 10));
    crate::wire::le_bytes_of_le_value(buf.subrange(10, 12));
    crate::wire::le_bytes_of_le_value(buf.subrange(12, 16));
    crate::wire::le_value_bound(buf.subrange(4, 8));
    crate::wire::le_value_bound(buf.subrange(8, 10));
    crate::wire::le_value_bound(buf.subrange(10, 12));
    crate::wire::le_value_bound(buf.subrange(12, 16));
    assert(datagram_bytes(h, frames) =~= buf);
    no_fault_when_encodable(frames, HEADER_LEN as nat);
}

} // verus!
