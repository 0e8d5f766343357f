//! Where every byte stands on the wires: what other programs that speak the protocols rely on.

use vstd::prelude::*;

use crate::addr::{self, PeerAddr};
use crate::engine;
use crate::error::ProtocolError;
use crate::protocol::datagram::{self, DatagramHeader, FrameView};
use crate::protocol::datapack;
use crate::protocol::frame::{self, Front, LinkFrame};
use crate::protocol::message::MessageData;
use crate::protocol::types;
use crate::reliable::fragment;
use crate::reliable::rtt;
use crate::session::event;
use crate::session::peer;
use crate::transport::{tcp, ws};
use crate::wire;

verus! {

// Numbers.

/// A number of 16 bits is written with its low byte first.
pub proof fn two_bytes(x: nat)
    requires
        x < 0x1_0000,
    ensures
        wire::le_bytes(x, 2) == seq![(x % 256) as u8, (x / 256) as u8],
{
    reveal_with_fuel(wire::le_bytes, 3);
    assert(wire::le_bytes(x, 2) =~= seq![(x % 256) as u8, (x / 256) as u8]);
}

/// A number of 32 bits is written with its low byte first.
pub proof fn four_bytes(x: nat)
    requires
        x < 0x1_0000_0000,
    ensures
        wire::le_bytes(x, 4) == seq![
            (x % 256) as u8,
            (x / 256 % 256) as u8,
            (x / 65_536 % 256) as u8,
            (x / 16_777_216) as u8,
        ],
{
    reveal_with_fuel(wire::le_bytes, 5);
    assert(x / 256 / 256 == x / 65_536);
    assert(x / 256 / 256 / 256 == x / 16_777_216);
    assert(wire::le_bytes(x, 4) =~= seq![
        (x % 256) as u8,
        (x / 256 % 256) as u8,
        (x / 65_536 % 256) as u8,
        (x / 16_777_216) as u8,
    ]);
}

/// A number of 64 bits is written as two of 32 bits, the low one first.
pub proof fn eight_bytes(x: nat)
    requires
        x < 0x1_0000_0000_0000_0000,
    ensures
        wire::le_bytes(x, 8) == wire::le_bytes(x % 0x1_0000_0000, 4) + wire::le_bytes(
            x / 0x1_0000_0000,
            4,
        ),
{
    reveal_with_fuel(wire::le_bytes, 9);
    let low = x % 0x1_0000_0000;
    let high = x / 0x1_0000_0000;
    assert(low % 256 == x % 256);
    assert(low / 256 % 256 == x / 256 % 256);
    assert(low / 256 / 256 % 256 == x / 256 / 256 % 256);
    assert(low / 256 / 256 / 256 % 256 == x / 256 / 256 / 256 % 256);
    assert(x / 256 / 256 / 256 / 256 == high);
    assert(wire::le_bytes(x, 8) =~= wire::le_bytes(low, 4) + wire::le_bytes(high, 4));
}

/// What is read is what the bytes say, low byte first.
pub proof fn bytes_are_read_low_first(s: Seq<u8>)
    ensures
        s.len() == 2 ==> wire::le_value(s) == s[0] + 256 * s[1],
        s.len() == 4 ==> wire::le_value(s) == s[0] + 256 * s[1] + 65_536 * s[2] + 16_777_216 * s[3],
{
    reveal_with_fuel(wire::le_value, 5);
}

// Client datagrams.

/// The header of a datagram: the magic number 0x5A50, the version, the flags, the connection, and
/// the three fields of the sequence numbers, 16 bytes in all. The frames follow.
pub proof fn header_layout(h: DatagramHeader, frames: Seq<FrameView>)
    ensures
        ({
            let b = datagram::datagram_bytes(h, frames);
            &&& b.len() == 16 + datagram::frames_bytes(frames).len()
            &&& b[0] == 0x50
            &&& b[1] == 0x5A
            &&& b[2] == h.version
            &&& b[3] == h.flags
            &&& b.subrange(4, 8) == wire::le_bytes(h.conn_id as nat, 4)
            &&& b.subrange(8, 10) == wire::le_bytes(h.seq as nat, 2)
            &&& b.subrange(10, 12) == wire::le_bytes(h.ack as nat, 2)
            &&& b.subrange(12, 16) == wire::le_bytes(h.ack_bits as nat, 4)
            &&& b.skip(16) == datagram::frames_bytes(frames)
        }),
{
    let b = datagram::datagram_bytes(h, frames);
    datagram::header_bytes_len(h);
    two_bytes(0x5A50);
    wire::le_bytes_len(h.conn_id as nat, 4);
    wire::le_bytes_len(h.seq as nat, 2);
    wire::le_bytes_len(h.ack as nat, 2);
    wire::le_bytes_len(h.ack_bits as nat, 4);
    assert(b.subrange(4, 8) =~= wire::le_bytes(h.conn_id as nat, 4));
    assert(b.subrange(8, 10) =~= wire::le_bytes(h.seq as nat, 2));
    assert(b.subrange(10, 12) =~= wire::le_bytes(h.ack as nat, 2));
    assert(b.subrange(12, 16) =~= wire::le_bytes(h.ack_bits as nat, 4));
    assert(b.skip(16) =~= datagram::frames_bytes(frames));
}

/// A frame: four bits of channel below twelve bits of message id, the length of the body in two
/// bytes, the body. Frames follow each other without gaps.
pub proof fn frame_layout(f: FrameView, rest: Seq<FrameView>)
    requires
        f.ch < 16,
        f.msg_id < 4096,
        f.body.len() < 0x1_0000,
    ensures
        ({
            let b = datagram::frames_bytes(seq![f] + rest);
            &&& b.len() == 4 + f.body.len() + datagram::frames_bytes(rest).len()
            &&& b[0] == f.msg_id % 16 * 16 + f.ch
            &&& b[1] == f.msg_id / 16
            &&& b[2] == f.body.len() % 256
            &&& b[3] == f.body.len() / 256
            &&& b.subrange(4, 4 + f.body.len() as int) == f.body
            &&& b.skip(4 + f.body.len() as int) == datagram::frames_bytes(rest)
        }),
        datagram::frames_bytes(Seq::empty()).len() == 0,
{
    let all = seq![f] + rest;
    let b = datagram::frames_bytes(all);
    two_bytes((f.msg_id * 16 + f.ch) as nat);
    two_bytes(f.body.len());
    assert(all.skip(1) =~= rest);
    assert(b =~= datagram::frame_bytes(f) + datagram::frames_bytes(rest));
    assert(b.subrange(4, 4 + f.body.len() as int) =~= f.body);
    assert(b.skip(4 + f.body.len() as int) =~= datagram::frames_bytes(rest));
}

/// What makes a datagram: version 1, channels up to 3, message ids up to 4095, and no more than
/// 1200 bytes.
pub proof fn datagrams_that_can_be_written(h: DatagramHeader, frames: Seq<FrameView>)
    ensures
        datagram::encode_fault(h, frames) is None <==> {
            &&& h.version == 1
            &&& forall|i: int|
                0 <= i < frames.len() ==> (#[trigger] frames[i]).ch <= 3 && frames[i].msg_id <= 4095
            &&& frames.len() > 0 ==> 16 + datagram::frames_bytes(frames).len() <= 1200
        },
{
    if datagram::encode_fault(h, frames) is None {
        datagram::encodable_when_no_fault(frames, 16);
        assert forall|i: int| 0 <= i < frames.len() implies (#[trigger] frames[i]).ch <= 3
            && frames[i].msg_id <= 4095 by {
            assert(datagram::encodable(frames[i]));
        }
    } else if h.version == 1 && (forall|i: int|
        0 <= i < frames.len() ==> (#[trigger] frames[i]).ch <= 3 && frames[i].msg_id <= 4095) && (
    frames.len() > 0 ==> 16 + datagram::frames_bytes(frames).len() <= 1200) {
        assert forall|i: int| 0 <= i < frames.len() implies datagram::encodable(
            #[trigger] frames[i],
        ) by {
            bodies_fit(frames, i);
        }
        datagram::no_fault_when_encodable(frames, 16);
    }
}

/// No body is longer than all the frames.
proof fn bodies_fit(frames: Seq<FrameView>, i: int)
    requires
        0 <= i < frames.len(),
    ensures
        frames[i].body.len() <= datagram::frames_bytes(frames).len(),
    decreases frames.len(),
{
    if i > 0 {
        bodies_fit(frames.skip(1), i - 1);
        assert(frames.skip(1)[i - 1] == frames[i]);
    }
}

/// Which datagrams are refused before their frames are looked at, and why.
pub proof fn datagrams_that_are_refused(buf: Seq<u8>)
    requires
        buf.len() <= usize::MAX,
    ensures
        ({
            let r = datagram::parse(buf);
            let none = Seq::<FrameView>::empty();
            &&& buf.len() < 16 ==> r == Err::<(DatagramHeader, Seq<FrameView>), ProtocolError>(
                ProtocolError::DatagramTooShort { len: buf.len() as usize },
            )
            &&& buf.len() > 1200 ==> r == Err::<(DatagramHeader, Seq<FrameView>), ProtocolError>(
                ProtocolError::DatagramOverMtu { len: buf.len() as usize },
            )
            &&& 16 <= buf.len() <= 1200 && !(buf[0] == 0x50 && buf[1] == 0x5A) ==> r == Err::<
                (DatagramHeader, Seq<FrameView>),
                ProtocolError,
            >(ProtocolError::BadMagic { magic: (buf[0] + 256 * buf[1]) as u16 })
            &&& 16 <= buf.len() <= 1200 && buf[0] == 0x50 && buf[1] == 0x5A && buf[2] != 1 ==> r
                == Err::<(DatagramHeader, Seq<FrameView>), ProtocolError>(
                ProtocolError::BadVersion { version: buf[2] },
            )
        }),
{
    if buf.len() >= 16 {
        bytes_are_read_low_first(buf.subrange(0, 2));
    }
}

/// Which frames are refused: one whose channel is above 3, one that is cut off in its first four
/// bytes, and one that is cut off in its body; the first of them decides.
pub proof fn frames_that_are_refused(buf: Seq<u8>, pos: int)
    requires
        0 <= pos < buf.len() <= usize::MAX,
    ensures
        ({
            let r = datagram::parse_frames(buf, pos);
            let left = buf.len() - pos;
            let ch = buf[pos] % 16;
            let len = buf[pos + 2] + 256 * buf[pos + 3];
            &&& left < 4 ==> r == Err::<Seq<FrameView>, ProtocolError>(
                ProtocolError::FrameHeaderTruncated { left: left as usize },
            )
            &&& left >= 4 && ch > 3 ==> r == Err::<Seq<FrameView>, ProtocolError>(
                ProtocolError::BadChannel { ch },
            )
            &&& left >= 4 && ch <= 3 && left < 4 + len ==> r == Err::<
                Seq<FrameView>,
                ProtocolError,
            >(ProtocolError::FrameBodyTruncated { len: len as usize, left: (left - 4) as usize })
            &&& left >= 4 && ch <= 3 && left >= 4 + len ==> (r is Ok <==> datagram::parse_frames(
                buf,
                pos + 4 + len,
            ) is Ok)
        }),
{
    if buf.len() - pos >= 4 {
        bytes_are_read_low_first(buf.subrange(pos, pos + 2));
        bytes_are_read_low_first(buf.subrange(pos + 2, pos + 4));
    }
}

/// A fragment: the group and the first sequence number in two bytes each, its place and the size of
/// the group in one byte each, and then the data. A group has at most 64 fragments.
pub proof fn fragment_layout(
    group: u16,
    first_seq: u16,
    frag_no: u8,
    total: u8,
    chunk: Seq<u8>,
)
    ensures
        ({
            let b = fragment::fragment_bytes(group, first_seq, frag_no, total, chunk);
            &&& b.len() == 6 + chunk.len()
            &&& b[0] == group % 256
            &&& b[1] == group / 256
            &&& b[2] == first_seq % 256
            &&& b[3] == first_seq / 256
            &&& b[4] == frag_no
            &&& b[5] == total
            &&& b.skip(6) == chunk
            &&& fragment::fragment_of(b) is Ok <==> 0 < total <= 64 && frag_no < total
        }),
{
    let b = fragment::fragment_bytes(group, first_seq, frag_no, total, chunk);
    two_bytes(group as nat);
    two_bytes(first_seq as nat);
    assert(b.skip(6) =~= chunk);
}

// The link to the logic server.

/// A link frame: the length of the body in four bytes, the type in one, the body.
pub proof fn link_frame_layout(f: LinkFrame)
    requires
        f.body.len() < 0x1_0000_0000,
    ensures
        ({
            let b = frame::link_bytes(f);
            &&& b.len() == 5 + f.body.len()
            &&& b.take(4) == wire::le_bytes(f.body.len(), 4)
            &&& b[4] == f.ty
            &&& b.skip(5) == f.body
        }),
{
    let b = frame::link_bytes(f);
    wire::le_bytes_len(f.body.len(), 4);
    assert(b.take(4) =~= wire::le_bytes(f.body.len(), 4));
    assert(b.skip(5) =~= f.body);
}

/// What stands at the front of a link stream: nothing whole while the five bytes of a frame's head
/// or its body are not all there; an error if it announces more than a megabyte or has a type that
/// does not exist; else a frame and what follows it.
pub proof fn link_streams_are_cut_into_frames(s: Seq<u8>)
    ensures
        ({
            let len = s[0] + 256 * s[1] + 65_536 * s[2] + 16_777_216 * s[3];
            let known = {
                ||| s[4] == 0x01
                ||| s[4] == 0x02
                ||| s[4] == 0x03
                ||| s[4] == 0x10
                ||| s[4] == 0x20
                ||| s[4] == 0x2F
                ||| s[4] == 0x30
                ||| s[4] == 0x81
                ||| s[4] == 0x82
                ||| s[4] == 0x83
                ||| s[4] == 0x84
                ||| s[4] == 0x90
            };
            if s.len() < 5 {
                frame::front(s) is Partial
            } else if len > 1_048_576 {
                frame::front(s) == (Front::TooLong { len: len as nat })
            } else if s.len() < 5 + len {
                frame::front(s) is Partial
            } else if !known {
                frame::front(s) == (Front::BadType { ty: s[4] })
            } else {
                frame::front(s) == (Front::Whole {
                    frame: LinkFrame { ty: s[4], body: s.subrange(5, 5 + len) },
                    rest: s.skip(5 + len),
                })
            }
        }),
{
    if s.len() >= 5 {
        bytes_are_read_low_first(s.take(4));
    }
}

/// The bodies of `Data` and `Send`: the session in eight bytes, the channel in one, the message id
/// in two, and then the payload.
pub proof fn data_layout(sess_id: u64, ch: u8, msg_id: u16, payload: Seq<u8>)
    ensures
        ({
            let b = frame::data_body(sess_id, ch, msg_id, payload);
            &&& b.take(8) == wire::le_bytes(sess_id as nat, 8)
            &&& b[8] == ch
            &&& b[9] == msg_id % 256
            &&& b[10] == msg_id / 256
            &&& b.skip(11) == payload
        }),
{
    let b = frame::data_body(sess_id, ch, msg_id, payload);
    wire::le_bytes_len(sess_id as nat, 8);
    two_bytes(msg_id as nat);
    assert(b.take(8) =~= wire::le_bytes(sess_id as nat, 8));
    assert(b.skip(11) =~= payload);
}

/// The body of `SessionOpen`: the session in eight bytes, the address in eighteen, the length of
/// the token in two, and then the token.
pub proof fn session_open_layout(sess_id: u64, peer: PeerAddr, token: Seq<u8>)
    requires
        token.len() < 0x1_0000,
    ensures
        ({
            let b = frame::session_open_body(sess_id, peer, token);
            &&& b.take(8) == wire::le_bytes(sess_id as nat, 8)
            &&& b.subrange(8, 26) == addr::addr_bytes(peer)
            &&& b[26] == token.len() % 256
            &&& b[27] == token.len() / 256
            &&& b.skip(28) == token
        }),
{
    let b = frame::session_open_body(sess_id, peer, token);
    wire::le_bytes_len(sess_id as nat, 8);
    addr::addr_bytes_len(peer);
    two_bytes(token.len());
    assert(b.take(8) =~= wire::le_bytes(sess_id as nat, 8));
    assert(b.subrange(8, 26) =~= addr::addr_bytes(peer));
    assert(b.skip(28) =~= token);
}

/// An address on the link: the octets of the IP in their usual order, those of IPv4 filled up with
/// zeros to sixteen, and the port with its low byte first.
pub proof fn address_layout(ip: u32, port: u16)
    ensures
        addr::addr_bytes(PeerAddr::V4 { ip, port }) == seq![
            (ip / 16_777_216) as u8,
            (ip / 65_536 % 256) as u8,
            (ip / 256 % 256) as u8,
            (ip % 256) as u8,
            0u8,
            0u8,
            0u8,
            0u8,
            0u8,
            0u8,
            0u8,
            0u8,
            0u8,
            0u8,
            0u8,
            0u8,
            (port % 256) as u8,
            (port / 256) as u8,
        ],
{
    four_bytes(ip as nat);
    two_bytes(port as nat);
    assert(addr::addr_bytes(PeerAddr::V4 { ip, port }) =~= seq![
        (ip / 16_777_216) as u8,
        (ip / 65_536 % 256) as u8,
        (ip / 256 % 256) as u8,
        (ip % 256) as u8,
        0u8,
        0u8,
        0u8,
        0u8,
        0u8,
        0u8,
        0u8,
        0u8,
        0u8,
        0u8,
        0u8,
        0u8,
        (port % 256) as u8,
        (port / 256) as u8,
    ]);
}

/// The short bodies: the session in eight bytes, and behind it the reason of a close or a kick in
/// one, the gap of a resumption in four, or the budget in two. A greeting is the version in two
/// bytes and the capabilities in four.
pub proof fn short_layouts(
    sess_id: u64,
    reason: u8,
    gap_ms: u32,
    kbps: u16,
    version: u16,
    caps: u32,
)
    ensures
        ({
            let close = frame::session_close_body(sess_id, reason);
            let resume = frame::session_resume_body(sess_id, gap_ms);
            let budget = frame::set_budget_body(sess_id, kbps);
            let hello = frame::hello_body(version, caps);
            &&& close.len() == 9
            &&& close.take(8) == wire::le_bytes(sess_id as nat, 8)
            &&& close[8] == reason
            &&& resume.len() == 12
            &&& resume.take(8) == wire::le_bytes(sess_id as nat, 8)
            &&& resume.skip(8) == wire::le_bytes(gap_ms as nat, 4)
            &&& budget.len() == 10
            &&& budget.take(8) == wire::le_bytes(sess_id as nat, 8)
            &&& budget[8] == kbps % 256
            &&& budget[9] == kbps / 256
            &&& hello.len() == 6
            &&& hello[0] == version % 256
            &&& hello[1] == version / 256
            &&& hello.skip(2) == wire::le_bytes(caps as nat, 4)
        }),
{
    let close = frame::session_close_body(sess_id, reason);
    let resume = frame::session_resume_body(sess_id, gap_ms);
    let budget = frame::set_budget_body(sess_id, kbps);
    let hello = frame::hello_body(version, caps);
    wire::le_bytes_len(sess_id as nat, 8);
    wire::le_bytes_len(gap_ms as nat, 4);
    wire::le_bytes_len(caps as nat, 4);
    two_bytes(kbps as nat);
    two_bytes(version as nat);
    assert(close.take(8) =~= wire::le_bytes(sess_id as nat, 8));
    assert(resume.take(8) =~= wire::le_bytes(sess_id as nat, 8));
    assert(resume.skip(8) =~= wire::le_bytes(gap_ms as nat, 4));
    assert(budget.take(8) =~= wire::le_bytes(sess_id as nat, 8));
    assert(hello.skip(2) =~= wire::le_bytes(caps as nat, 4));
}

/// The body of `Multicast`: the number of sessions in one byte, eight bytes for each of them, and
/// then what a `Send` has behind its session.
pub proof fn multicast_layout(ids: Seq<u64>, ch: u8, msg_id: u16, payload: Seq<u8>, i: int)
    requires
        ids.len() < 0x100,
    ensures
        ({
            let b = frame::multicast_body(ids, ch, msg_id, payload);
            let end = 1 + 8 * ids.len() as int;
            &&& b.len() == end + 3 + payload.len()
            &&& b[0] == ids.len()
            &&& 0 <= i < ids.len() ==> b.subrange(1 + 8 * i, 9 + 8 * i) == wire::le_bytes(
                ids[i] as nat,
                8,
            )
            &&& b[end] == ch
            &&& b[end + 1] == msg_id % 256
            &&& b[end + 2] == msg_id / 256
            &&& b.skip(end + 3) == payload
        }),
{
    let b = frame::multicast_body(ids, ch, msg_id, payload);
    let end = 1 + 8 * ids.len() as int;
    frame::ids_bytes_at(ids);
    two_bytes(msg_id as nat);
    if 0 <= i < ids.len() {
        assert(frame::ids_bytes(ids).subrange(8 * i, 8 * i + 8) == wire::le_bytes(
            ids[i] as nat,
            8,
        ));
        assert(b.subrange(1 + 8 * i, 9 + 8 * i) =~= frame::ids_bytes(ids).subrange(
            8 * i,
            8 * i + 8,
        ));
    }
    assert(b.skip(end + 3) =~= payload);
}

// Streams.

/// A TLV message: the length of the data and the id in four bytes each, and then the data.
pub proof fn message_layout(m: MessageData)
    requires
        m.data.len() < 0x1_0000_0000,
    ensures
        ({
            let b = datapack::packed(m);
            &&& b.len() == 8 + m.data.len()
            &&& b.take(4) == wire::le_bytes(m.data.len(), 4)
            &&& b.subrange(4, 8) == wire::le_bytes(m.id as nat, 4)
            &&& b.skip(8) == m.data
        }),
{
    let b = datapack::packed(m);
    wire::le_bytes_len(m.data.len(), 4);
    wire::le_bytes_len(m.id as nat, 4);
    assert(b.take(4) =~= wire::le_bytes(m.data.len(), 4));
    assert(b.subrange(4, 8) =~= wire::le_bytes(m.id as nat, 4));
    assert(b.skip(8) =~= m.data);
}

/// A datagram over TCP: its length in four bytes, and then the datagram. A length of zero or above
/// 65535 is refused.
pub proof fn tcp_layout(packet: Seq<u8>, head: Seq<u8>)
    requires
        packet.len() < 0x1_0000_0000,
        head.len() == 4,
    ensures
        tcp::prefixed(packet).take(4) == wire::le_bytes(packet.len(), 4),
        tcp::prefixed(packet).skip(4) == packet,
        ({
            let len = head[0] + 256 * head[1] + 65_536 * head[2] + 16_777_216 * head[3];
            tcp::announced(head) == if 1 <= len <= 65_535 {
                Some(len as nat)
            } else {
                None
            }
        }),
{
    wire::le_bytes_len(packet.len(), 4);
    bytes_are_read_low_first(head);
    assert(tcp::prefixed(packet).take(4) =~= wire::le_bytes(packet.len(), 4));
    assert(tcp::prefixed(packet).skip(4) =~= packet);
}

// Numbers that are agreed upon.

/// The limits and the times that the protocol promises.
pub proof fn agreed_numbers()
    ensures
        types::MILLISECOND == 1_000_000,
        types::SECOND == 1_000_000_000,
        types::MAGIC == 0x5A50,
        types::VERSION == 1,
        types::MTU == 1200,
        datagram::HEADER_LEN == 16,
        types::HANDSHAKE_TIMEOUT == 3_000_000_000,
        types::IDLE_GRACE == 5_000_000_000,
        types::RECONNECT_GRACE == 20_000_000_000,
        types::HEARTBEAT_INTERVAL == 1_000_000_000,
        types::TIMEOUT_MIN == 1_500_000_000,
        types::TIMEOUT_MAX == 5_000_000_000,
        types::RECONNECT_MIN == 5_000_000_000,
        types::RECONNECT_MAX == 20_000_000_000,
        types::RETRANSMIT_QUEUE_CAP == 64,
        types::RTO_MIN == 50_000_000,
        types::RTO_MAX == 1_000_000_000,
        rtt::INITIAL_RTO == 200_000_000,
        types::UP_QUEUE_CAP == 4096,
        types::MAX_FRAME_BODY == 1_048_576,
        fragment::FRAGMENT_TIMEOUT == 10_000_000_000,
        fragment::FRAGMENT_THRESHOLD == 1100,
        fragment::MAX_FRAGMENTS == 64,
        fragment::COMPLETED_CAP == 128,
        peer::CH3_SEEN_CAP == 256,
        peer::DELIVERED_CAP == 512,
        peer::PLACEHOLDER == 0xFFFF,
        event::CLOSE_GRACE_TIMEOUT == 1,
        event::CLOSE_KICKED == 2,
        event::CLOSE_OVERFLOW == 3,
        event::CLOSE_SHUTDOWN == 4,
        engine::LOGIC_RECONNECT_INTERVAL == 1_000_000_000,
        engine::LOGIC_RECONNECT_MAX == 8_000_000_000,
        engine::OVERLOAD_MIN_INTERVAL == 100_000_000,
        tcp::VIRTUAL_IP == 0x7F00_0002,
        ws::VIRTUAL_IP == 0x7F00_0003,
{
}

/// An IPv6 address on the link: its sixteen octets in their usual order and the port.
pub proof fn long_address_layout(ip: u128, port: u16, flowinfo: u32, scope_id: u32, i: int)
    requires
        0 <= i < 16,
    ensures
        ({
            let b = addr::addr_bytes(PeerAddr::V6 { ip, port, flowinfo, scope_id });
            &&& b.len() == 18
            &&& b[15 - i] == ip as nat / wire::pow256(i as nat) % 256
            &&& b[16] == port % 256
            &&& b[17] == port / 256
        }),
{
    wire::bytes_stand_for_powers(ip as nat, 16, i);
    two_bytes(port as nat);
}

/// Bodies that are too short for what they are meant to say are refused, and a token that is cut
/// off is too.
pub proof fn short_bodies_are_refused(b: Seq<u8>)
    ensures
        frame::session_open_of(b) == Err::<(u64, PeerAddr, Seq<u8>), ProtocolError>(
            ProtocolError::BodyTooShort,
        ) <==> b.len() < 28,
        b.len() >= 28 ==> (frame::session_open_of(b) == Err::<
            (u64, PeerAddr, Seq<u8>),
            ProtocolError,
        >(ProtocolError::TokenTruncated) <==> b.len() < 28 + b[26] + 256 * b[27]),
        frame::session_close_of(b) is Err <==> b.len() < 9,
        frame::session_resume_of(b) is Err <==> b.len() < 12,
        frame::data_of(b) is Err <==> b.len() < 11,
        frame::set_budget_of(b) is Err <==> b.len() < 10,
{
    if b.len() >= 28 {
        bytes_are_read_low_first(b.subrange(26, 28));
    }
}

} // verus!
