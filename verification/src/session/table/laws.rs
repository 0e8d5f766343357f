//! What the session table promises, over several calls or for every input.

use vstd::prelude::*;

use crate::addr::PeerAddr;
use crate::protocol::datagram::{self, DatagramHeader, FrameView, HEADER_LEN};
use crate::protocol::types::{
    Nanos, CH_RELIABLE_ORDERED, FLAG_HANDSHAKE, FLAG_HMAC, MTU,
};
use crate::reliable::fragment::{self, FRAGMENT_THRESHOLD};
use crate::reliable::retransmit;
use crate::reliable::serial;
use crate::session::event::{Event, CLOSE_GRACE_TIMEOUT};
use crate::session::handshake::{self, Challenge};
use crate::session::inbound;
use crate::session::peer::{self, SessionData, SessionState};
use crate::session::seal::{self, HMAC_LEN};
use crate::session::table::maintain;
use crate::session::table::receive::{self, Checked};
use crate::session::table::send::{self, Sent};
use crate::session::table::{self, SessionTableConfig, TableData};
use crate::session::window;
use crate::stats::{self, StatsSnapshot};
use crate::wire;

verus! {

// Receiving.

/// Frames take at least four bytes each, and what their bodies take.
proof fn first_frame_fits(frames: Seq<FrameView>)
    requires
        frames.len() > 0,
    ensures
        datagram::frames_bytes(frames).len() >= 4 + frames[0].body.len(),
{
    wire::le_bytes_len((frames[0].msg_id * 16 + frames[0].ch) as nat, 2);
    wire::le_bytes_len(frames[0].body.len(), 2);
}

/// The answer to a datagram is never longer than the datagram: the engine cannot be used to
/// amplify an attack on somebody else.
pub proof fn answers_never_amplify(
    t: TableData,
    peer: PeerAddr,
    buf: Seq<u8>,
    random: Seq<u8>,
    now: Nanos,
)
    requires
        random.len() == 8,
    ensures
        receive::received(t, peer, buf, random, now).reply matches Some(reply) ==> reply.len()
            <= buf.len(),
{
    match receive::checked(t, buf) {
        Checked::Bad => {},
        Checked::Plain => {
            data_answers_never_amplify(t, peer, buf, random, now);
        },
        Checked::Sealed { data } => {
            data_answers_never_amplify(t, peer, data, random, now);
        },
    }
}

/// `answers_never_amplify`, once the HMAC was dealt with.
proof fn data_answers_never_amplify(
    t: TableData,
    peer: PeerAddr,
    data: Seq<u8>,
    random: Seq<u8>,
    now: Nanos,
)
    requires
        random.len() == 8,
    ensures
        receive::data_received(t, peer, data, random, now).reply matches Some(reply) ==> reply.len()
            <= data.len(),
{
    match datagram::parse(data) {
        Err(_) => {},
        Ok((h, frames)) => {
            datagram::encode_inverts_decode(data);
            datagram::header_bytes_len(h);
            if frames.len() > 0 {
                first_frame_fits(frames);
            }
            receive::answer_len(0, random);
            receive::answer_len((t.next_conn_id % 0x1_0000_0000) as u32, random);
            let u = TableData {
                stats: StatsSnapshot { pkt_in: stats::count_sum(t.stats.pkt_in, 1), ..t.stats },
                ..t
            };
            if u.sessions.contains_key(h.conn_id) {
                let i = inbound::packet_received(
                    u.sessions[h.conn_id],
                    peer,
                    h,
                    frames,
                    u.stats,
                    now,
                );
                datagram::header_bytes_len(inbound::pure_ack_header(i.session));
                assert(datagram::frames_bytes(Seq::<FrameView>::empty()) =~= Seq::<u8>::empty());
            }
        },
    }
}

/// Whether a datagram is that of a handshake.
pub open spec fn is_handshake(buf: Seq<u8>) -> bool {
    buf.len() > 3 && buf[3] & FLAG_HANDSHAKE != 0
}

/// Random bytes matter to handshakes only.
pub proof fn only_handshakes_are_random(
    t: TableData,
    peer: PeerAddr,
    buf: Seq<u8>,
    a: Seq<u8>,
    b: Seq<u8>,
    now: Nanos,
)
    requires
        !is_handshake(buf),
    ensures
        receive::received(t, peer, buf, a, now) == receive::received(t, peer, buf, b, now),
{
    match receive::checked(t, buf) {
        Checked::Sealed { data } => {
            assert(data =~= buf.take(buf.len() - HMAC_LEN));
            match datagram::parse(data) {
                Ok((h, _)) => {
                    assert(h.flags == buf[3]);
                },
                Err(_) => {},
            }
        },
        _ => {},
    }
}

/// A datagram that announces an HMAC and does not carry the right one changes nothing but a
/// counter, and is not answered.
pub proof fn forgeries_change_nothing(
    t: TableData,
    peer: PeerAddr,
    buf: Seq<u8>,
    random: Seq<u8>,
    now: Nanos,
)
    requires
        t.cfg.enable_hmac,
        buf.len() >= HEADER_LEN + HMAC_LEN,
        buf[3] & (FLAG_HANDSHAKE | FLAG_HMAC) == FLAG_HMAC,
        ({
            let conn_id = wire::le_value(buf.subrange(4, 8)) as u32;
            t.sessions.contains_key(conn_id) ==> buf.skip(buf.len() - HMAC_LEN) != seal::hmac4_of(
                seal::key_of(t.sessions[conn_id].secret),
                buf.take(buf.len() - HMAC_LEN),
            )
        }),
    ensures
        receive::received(t, peer, buf, random, now) == receive::dropped(t),
{
}

/// A datagram that names a session, announces an HMAC and carries the one of the session's secret
/// is read as what was sealed.
pub proof fn honest_datagrams_are_accepted(
    t: TableData,
    conn_id: u32,
    peer: PeerAddr,
    data: Seq<u8>,
    random: Seq<u8>,
    now: Nanos,
)
    requires
        t.cfg.enable_hmac,
        t.sessions.contains_key(conn_id),
        data.len() >= HEADER_LEN,
        wire::le_value(data.subrange(4, 8)) == conn_id,
        data[3] & (FLAG_HANDSHAKE | FLAG_HMAC) == FLAG_HMAC,
    ensures
        receive::received(t, peer, seal::sealed(t.sessions[conn_id].secret, data), random, now)
            == receive::data_received(t, peer, data, random, now),
{
    let secret = t.sessions[conn_id].secret;
    let buf = seal::sealed(secret, data);
    seal::open_inverts_seal(secret, data);
    assert(buf.subrange(4, 8) =~= data.subrange(4, 8));
    assert(buf[3] == data[3]);
    assert(buf.take(buf.len() - HMAC_LEN) =~= data);
}

/// A byte string that is no datagram changes nothing but a counter, and is not answered.
pub proof fn garbage_changes_nothing(
    t: TableData,
    peer: PeerAddr,
    buf: Seq<u8>,
    random: Seq<u8>,
    now: Nanos,
)
    requires
        receive::checked(t, buf) is Plain,
        datagram::parse(buf) is Err,
    ensures
        receive::received(t, peer, buf, random, now) == receive::dropped(t),
{
}

/// Nobody gets a session without answering a challenge that was sent to their address not too
/// long ago.
pub proof fn sessions_need_an_answered_challenge(
    t: TableData,
    peer: PeerAddr,
    buf: Seq<u8>,
    random: Seq<u8>,
    now: Nanos,
    sess_id: u64,
    token: Seq<u8>,
)
    requires
        receive::received(t, peer, buf, random, now).events.contains(
            Event::Open { sess_id, peer, token },
        ),
    ensures
        t.pending.contains_key(peer),
        !handshake::is_expired(t.pending[peer], now, t.cfg.handshake_timeout),
        exists|body: Seq<u8>| #[trigger]
            body.take(8) == t.pending[peer].bytes && body.len() >= 8 && body.skip(8) == token,
{
    let open = Event::Open { sess_id, peer, token };
    match receive::checked(t, buf) {
        Checked::Bad => {},
        Checked::Plain => {
            open_needs_challenge(t, peer, buf, random, now, sess_id, token);
        },
        Checked::Sealed { data } => {
            open_needs_challenge(t, peer, data, random, now, sess_id, token);
        },
    }
}

/// `sessions_need_an_answered_challenge`, once the HMAC was dealt with.
proof fn open_needs_challenge(
    t: TableData,
    peer: PeerAddr,
    data: Seq<u8>,
    random: Seq<u8>,
    now: Nanos,
    sess_id: u64,
    token: Seq<u8>,
)
    requires
        receive::data_received(t, peer, data, random, now).events.contains(
            Event::Open { sess_id, peer, token },
        ),
    ensures
        t.pending.contains_key(peer),
        !handshake::is_expired(t.pending[peer], now, t.cfg.handshake_timeout),
        exists|body: Seq<u8>| #[trigger]
            body.take(8) == t.pending[peer].bytes && body.len() >= 8 && body.skip(8) == token,
{
    match datagram::parse(data) {
        Err(_) => {},
        Ok((h, frames)) => {
            let u = TableData {
                stats: StatsSnapshot { pkt_in: stats::count_sum(t.stats.pkt_in, 1), ..t.stats },
                ..t
            };
            if h.flags & FLAG_HANDSHAKE != 0 {
                let o = receive::handshake_received(u, peer, frames, data.len(), random, now);
                let k = choose|k: int|
                    0 <= k < o.events.len() && o.events[k] == (Event::Open { sess_id, peer, token });
                assert(o.events[k] == (Event::Open { sess_id, peer, token }));
                assert(frames[0].body.take(8) == t.pending[peer].bytes);
            } else if h.conn_id != 0 && u.sessions.contains_key(h.conn_id) {
                let s = u.sessions[h.conn_id];
                packets_do_not_open(s, peer, h, frames, u.stats, now);
                let o = receive::session_received(u, peer, h, frames, now);
                let k = choose|k: int|
                    0 <= k < o.events.len() && o.events[k] == (Event::Open { sess_id, peer, token });
                assert(!(o.events[k] is Open));
            }
        },
    }
}

/// Delivery opens no session.
proof fn delivery_does_not_open(s: SessionData, fuel: nat)
    ensures
        forall|k: int|
            0 <= k < peer::in_order(s, fuel).1.len() ==> !(#[trigger] peer::in_order(
                s,
                fuel,
            ).1[k] is Open),
    decreases fuel,
{
    if fuel > 0 && peer::can_deliver(s) {
        delivery_does_not_open(peer::delivered_one(s), (fuel - 1) as nat);
        let a = peer::event_of_one(s);
        let b = peer::in_order(peer::delivered_one(s), (fuel - 1) as nat).1;
        assert forall|k: int| 0 <= k < (a + b).len() implies !(#[trigger] (a + b)[k] is Open) by {
            if k >= a.len() {
                assert((a + b)[k] == b[k - a.len()]);
            }
        }
    }
}

/// Frames open no session.
proof fn frames_do_not_open(
    i: inbound::Inbound,
    h: DatagramHeader,
    frames: Seq<FrameView>,
    now: Nanos,
)
    requires
        forall|k: int| 0 <= k < i.events.len() ==> !(#[trigger] i.events[k] is Open),
    ensures
        forall|k: int|
            0 <= k < inbound::frames_received(i, h, frames, now).events.len() ==> !(
            #[trigger] inbound::frames_received(i, h, frames, now).events[k] is Open),
    decreases frames.len(),
{
    if frames.len() > 0 {
        frames_do_not_open(i, h, frames.drop_last(), now);
        let j = inbound::frames_received(i, h, frames.drop_last(), now);
        let f = frames.last();
        let s = inbound::recorded(j.session, h.seq);
        match fragment::fragment_of(f.body) {
            Ok(x) => {
                let (a, d) = fragment::pushed(
                    s.assembly,
                    x.group,
                    x.first_seq,
                    x.frag_no,
                    x.total,
                    x.chunk,
                    now,
                );
                match d {
                    Some((first_seq, payload)) => {
                        delivery_does_not_open(
                            SessionData {
                                assembly: a,
                                reorder: peer::with_group(
                                    s.reorder,
                                    first_seq,
                                    x.total,
                                    f.msg_id,
                                    payload,
                                ),
                                ..s
                            },
                            0x1_0000,
                        );
                    },
                    None => {},
                }
            },
            Err(_) => {},
        }
        delivery_does_not_open(
            SessionData { reorder: s.reorder.insert(h.seq, (f.msg_id, f.body)), ..s },
            0x1_0000,
        );
        let after = inbound::frame_received(j, h, f, now);
        assert forall|k: int| 0 <= k < after.events.len() implies !(#[trigger] after.events[k]
            is Open) by {
            if k < j.events.len() {
                assert(after.events[k] == j.events[k]);
            } else if f.ch == CH_RELIABLE_ORDERED {
                let more = peer::ch2_received(s, h, f, now).1;
                assert(after.events[k] == more[k - j.events.len()]);
            }
        }
    }
}

/// A datagram that names a session opens none: a peer that comes back, or comes from another
/// address, is not taken for a new one.
pub proof fn packets_do_not_open(
    s: SessionData,
    from: PeerAddr,
    h: DatagramHeader,
    frames: Seq<FrameView>,
    stats: StatsSnapshot,
    now: Nanos,
)
    ensures
        forall|k: int|
            0 <= k < inbound::packet_received(s, from, h, frames, stats, now).events.len() ==> !(
            #[trigger] inbound::packet_received(s, from, h, frames, stats, now).events[k] is Open),
{
    let st = if s.peer != from {
        StatsSnapshot { nat_rebind: stats::count_sum(stats.nat_rebind, 1), ..stats }
    } else {
        stats
    };
    let u = SessionData { peer: from, last_rx: now, ..s };
    frames_do_not_open(
        inbound::Inbound {
            session: inbound::ack_received(u, h, now),
            events: Seq::empty(),
            owes_ack: false,
            stats: inbound::ack_counted(u, h, st),
        },
        h,
        frames,
        now,
    );
}

/// A datagram leaves the table sound.
pub proof fn receiving_keeps_the_table_sound(
    t: TableData,
    peer: PeerAddr,
    buf: Seq<u8>,
    random: Seq<u8>,
    now: Nanos,
)
    requires
        table::table_wf(t),
        table::ids_left(t),
        random.len() == 8,
    ensures
        table::table_wf(receive::received(t, peer, buf, random, now).table),
{
    match receive::checked(t, buf) {
        Checked::Bad => {},
        Checked::Plain => {
            data_keeps_the_table_sound(t, peer, buf, random, now);
        },
        Checked::Sealed { data } => {
            data_keeps_the_table_sound(t, peer, data, random, now);
        },
    }
}

/// `receiving_keeps_the_table_sound`, once the HMAC was dealt with.
proof fn data_keeps_the_table_sound(
    t: TableData,
    peer: PeerAddr,
    data: Seq<u8>,
    random: Seq<u8>,
    now: Nanos,
)
    requires
        table::table_wf(t),
        table::ids_left(t),
        random.len() == 8,
    ensures
        table::table_wf(receive::data_received(t, peer, data, random, now).table),
{
    match datagram::parse(data) {
        Err(_) => {},
        Ok((h, frames)) => {
            let u = TableData {
                stats: StatsSnapshot { pkt_in: stats::count_sum(t.stats.pkt_in, 1), ..t.stats },
                ..t
            };
            if h.flags & FLAG_HANDSHAKE == 0 && h.conn_id != 0 && u.sessions.contains_key(
                h.conn_id,
            ) {
                let s = u.sessions[h.conn_id];
                inbound::packet_keeps_the_session(s, peer, h, frames, u.stats, now);
                let i = inbound::packet_received(s, peer, h, frames, u.stats, now);
                send::update_keeps_wf(u, h.conn_id, i.session);
            }
        },
    }
}

/// A datagram touches at most the session that it names, or the one that it opens.
pub proof fn other_sessions_are_untouched(
    t: TableData,
    peer: PeerAddr,
    buf: Seq<u8>,
    random: Seq<u8>,
    now: Nanos,
    k: u32,
)
    requires
        buf.len() >= 8 ==> k != wire::le_value(buf.subrange(4, 8)) as u32,
        k != (t.next_conn_id % 0x1_0000_0000) as u32,
    ensures
        ({
            let u = receive::received(t, peer, buf, random, now).table;
            u.sessions.contains_key(k) == t.sessions.contains_key(k) && (t.sessions.contains_key(k)
                ==> u.sessions[k] == t.sessions[k])
        }),
{
    match receive::checked(t, buf) {
        Checked::Bad => {},
        Checked::Plain => {
            match datagram::parse(buf) {
                Ok((h, _)) => {
                    assert(h.conn_id != k);
                },
                Err(_) => {},
            }
        },
        Checked::Sealed { data } => {
            match datagram::parse(data) {
                Ok((h, _)) => {
                    assert(data.subrange(4, 8) =~= buf.subrange(4, 8));
                    assert(h.conn_id != k);
                },
                Err(_) => {},
            }
        },
    }
}

/// The datagram by which a client takes part in a handshake: `body` is its token, or the
/// challenge with the token behind it.
pub open spec fn client_hello(body: Seq<u8>) -> Seq<u8> {
    datagram::datagram_bytes(
        receive::answer_header(0),
        seq![FrameView { ch: 0, msg_id: 0, body }],
    )
}

/// A handshake datagram is read as it was written.
proof fn hello_is_read(t: TableData, body: Seq<u8>)
    requires
        body.len() <= MTU - HEADER_LEN - 4,
    ensures
        receive::checked(t, client_hello(body)) is Plain,
        datagram::parse(client_hello(body)) == Ok::<
            (DatagramHeader, Seq<FrameView>),
            crate::error::ProtocolError,
        >((receive::answer_header(0), seq![FrameView { ch: 0, msg_id: 0, body }])),
        client_hello(body).len() == HEADER_LEN + 4 + body.len(),
{
    let h = receive::answer_header(0);
    let f = FrameView { ch: 0, msg_id: 0, body };
    let frames = seq![f];
    let buf = client_hello(body);
    reveal_with_fuel(datagram::frames_fault, 2);
    reveal_with_fuel(datagram::frames_bytes, 2);
    assert(frames.skip(1) =~= Seq::<FrameView>::empty());
    datagram::decode_inverts_encode(h, frames);
    datagram::header_bytes_len(h);
    wire::le_bytes_len(0, 2);
    wire::le_bytes_len(body.len(), 2);
    wire::le_bytes_len(crate::protocol::types::MAGIC as nat, 2);
    assert(buf[3] == FLAG_HANDSHAKE);
    assert(FLAG_HANDSHAKE & (FLAG_HANDSHAKE | FLAG_HMAC) != FLAG_HMAC) by (bit_vector);
}

/// A client without a standing challenge that asks with a token of at least eight bytes is sent
/// one. If it sends the challenge back in time, with its token behind it, it has a session from
/// then on: with the next ids, its own address and token, and a secret that it is told.
pub proof fn handshake_opens_a_session(
    t: TableData,
    peer: PeerAddr,
    token: Seq<u8>,
    challenge: Seq<u8>,
    secret: Seq<u8>,
    now: Nanos,
    later: Nanos,
)
    requires
        8 <= token.len() <= MTU - HEADER_LEN - 12,
        challenge.len() == 8,
        secret.len() == 8,
        t.pending.contains_key(peer) ==> handshake::is_expired(
            t.pending[peer],
            now,
            t.cfg.handshake_timeout,
        ),
        now <= later < now + t.cfg.handshake_timeout,
    ensures
        ({
            let first = receive::received(t, peer, client_hello(token), challenge, now);
            let second = receive::received(
                first.table,
                peer,
                client_hello(challenge + token),
                secret,
                later,
            );
            let conn_id = (t.next_conn_id % 0x1_0000_0000) as u32;
            &&& first.reply == Some(receive::answer(0, challenge))
            &&& first.events == Seq::<Event>::empty()
            &&& first.table.sessions == t.sessions
            &&& second.reply == Some(receive::answer(conn_id, secret))
            &&& second.events == seq![Event::Open { sess_id: t.next_sess_id, peer, token }]
            &&& second.table.sessions == t.sessions.insert(
                conn_id,
                peer::fresh(
                    conn_id,
                    t.next_sess_id,
                    peer,
                    wire::le_value(secret) as u64,
                    token,
                    later,
                ),
            )
        }),
{
    hello_is_read(t, token);
    let first = receive::received(t, peer, client_hello(token), challenge, now);
    assert(FLAG_HANDSHAKE & FLAG_HANDSHAKE != 0) by (bit_vector);
    assert(first.table.pending.contains_key(peer));
    assert(first.table.pending[peer] == (Challenge { bytes: challenge, created: now }));
    hello_is_read(first.table, challenge + token);
    assert((challenge + token).take(8) =~= challenge);
    assert((challenge + token).skip(8) =~= token);
    let second = receive::received(
        first.table,
        peer,
        client_hello(challenge + token),
        secret,
        later,
    );
    assert(second.events =~= seq![Event::Open { sess_id: t.next_sess_id, peer, token }]);
}

/// A wrong answer to a challenge opens nothing, and leaves the challenge standing.
pub proof fn wrong_answers_open_nothing(
    t: TableData,
    peer: PeerAddr,
    body: Seq<u8>,
    random: Seq<u8>,
    now: Nanos,
)
    requires
        body.len() <= MTU - HEADER_LEN - 4,
        t.pending.contains_key(peer),
        !handshake::is_expired(t.pending[peer], now, t.cfg.handshake_timeout),
        body.len() < 8 || body.take(8) != t.pending[peer].bytes,
    ensures
        ({
            let o = receive::received(t, peer, client_hello(body), random, now);
            &&& o.table.sessions == t.sessions
            &&& o.table.pending.contains_key(peer)
            &&& o.table.pending[peer] == t.pending[peer]
            &&& o.events == Seq::<Event>::empty()
            &&& o.reply is None
        }),
{
    hello_is_read(t, body);
    assert(FLAG_HANDSHAKE & FLAG_HANDSHAKE != 0) by (bit_vector);
}

/// A session follows its peer to a new address: it stays the same session, and only a counter
/// tells of the move.
pub proof fn address_changes_keep_the_session(
    t: TableData,
    from: PeerAddr,
    h: DatagramHeader,
    frames: Seq<FrameView>,
    now: Nanos,
)
    requires
        t.sessions.contains_key(h.conn_id),
        t.sessions[h.conn_id].peer != from,
    ensures
        ({
            let o = receive::session_received(t, from, h, frames, now);
            let s = t.sessions[h.conn_id];
            let u = o.table.sessions[h.conn_id];
            &&& u.peer == from
            &&& u.conn_id == s.conn_id
            &&& u.sess_id == s.sess_id
            &&& u.secret == s.secret
            &&& u.token == s.token
            &&& o.table.sessions.dom() == t.sessions.dom()
            &&& o.table.next_sess_id == t.next_sess_id
            &&& o.table.stats.nat_rebind == stats::count_sum(t.stats.nat_rebind, 1)
        }),
{
    let s = t.sessions[h.conn_id];
    inbound::packet_keeps_the_session(s, from, h, frames, t.stats, now);
    let o = receive::session_received(t, from, h, frames, now);
    assert(o.table.sessions.dom() =~= t.sessions.dom());
    let st = StatsSnapshot { nat_rebind: stats::count_sum(t.stats.nat_rebind, 1), ..t.stats };
    let u = SessionData { peer: from, last_rx: now, ..s };
    rebinds_are_counted_once(
        inbound::Inbound {
            session: inbound::ack_received(u, h, now),
            events: Seq::empty(),
            owes_ack: false,
            stats: inbound::ack_counted(u, h, st),
        },
        h,
        frames,
        now,
    );
}

/// Frames do not count as moves.
proof fn rebinds_are_counted_once(
    i: inbound::Inbound,
    h: DatagramHeader,
    frames: Seq<FrameView>,
    now: Nanos,
)
    ensures
        inbound::frames_received(i, h, frames, now).stats.nat_rebind == i.stats.nat_rebind,
    decreases frames.len(),
{
    if frames.len() > 0 {
        rebinds_are_counted_once(i, h, frames.drop_last(), now);
    }
}

/// A session in the grace period comes back with the first datagram that names it: it is active
/// again, and the only event is that it is back, after how long.
pub proof fn sessions_come_back(
    t: TableData,
    from: PeerAddr,
    h: DatagramHeader,
    frames: Seq<FrameView>,
    now: Nanos,
    since: Nanos,
)
    requires
        t.sessions.contains_key(h.conn_id),
        t.sessions[h.conn_id].state == (SessionState::Grace { since }),
    ensures
        ({
            let o = receive::session_received(t, from, h, frames, now);
            let s = t.sessions[h.conn_id];
            &&& o.events == seq![
                Event::Resume { sess_id: s.sess_id, gap_ms: inbound::gap_ms(now, since) },
            ]
            &&& o.table.sessions[h.conn_id] == (SessionData {
                state: SessionState::Active,
                peer: from,
                last_rx: now,
                ..s
            })
            &&& o.reply is None
        }),
{
}

// Time.

/// What one walk makes of the sessions.
pub open spec fn sessions_aged(t: TableData, now: Nanos) -> Map<u32, SessionData> {
    Map::new(
        |k: u32| t.sessions.contains_key(k) && !maintain::is_over(t.cfg, t.sessions[k], now),
        |k: u32|
            if maintain::goes_idle(t.cfg, t.sessions[k], now) {
                SessionData { state: SessionState::Grace { since: now }, ..t.sessions[k] }
            } else {
                t.sessions[k]
            },
    )
}

/// Whatever order the sessions are taken in, the same ones enter the grace period, the same ones
/// are closed, and the rest is left alone.
pub proof fn ageing_does_not_depend_on_the_order(t: TableData, order: Seq<u32>, now: Nanos)
    requires
        maintain::is_walk(t, order),
    ensures
        maintain::all_aged(t, order, now).0.sessions == sessions_aged(t, now),
        forall|k: int|
            0 <= k < maintain::all_aged(t, order, now).1.len() ==> is_a_close(
                t,
                now,
                #[trigger] maintain::all_aged(t, order, now).1[k],
            ),
{
    ageing_so_far(t, order, now);
    maintain::all_aged_keeps_cfg(t, order, now);
    assert(maintain::all_aged(t, order, now).0.sessions =~= sessions_aged(t, now)) by {
        assert forall|k: u32| #[trigger] t.sessions.contains_key(k) implies order.contains(k) by {}
    }
}

/// Whether an event closes a session whose grace period is over.
pub open spec fn is_a_close(t: TableData, now: Nanos, e: Event) -> bool {
    exists|k: u32| #[trigger]
        t.sessions.contains_key(k) && maintain::is_over(t.cfg, t.sessions[k], now) && e
            == (Event::Close { sess_id: t.sessions[k].sess_id, reason: CLOSE_GRACE_TIMEOUT })
}

/// What part of a walk makes of the sessions.
pub proof fn ageing_so_far(t: TableData, order: Seq<u32>, now: Nanos)
    requires
        order.no_duplicates(),
        forall|k: u32| #[trigger] order.contains(k) ==> t.sessions.contains_key(k),
    ensures
        ({
            let (u, events) = maintain::all_aged(t, order, now);
            &&& u.cfg == t.cfg
            &&& forall|k: u32| #[trigger]
                u.sessions.contains_key(k) <==> t.sessions.contains_key(k) && !(order.contains(k)
                    && maintain::is_over(t.cfg, t.sessions[k], now))
            &&& forall|k: u32| #[trigger]
                u.sessions.contains_key(k) ==> u.sessions[k] == (if order.contains(k)
                    && maintain::goes_idle(t.cfg, t.sessions[k], now) {
                    SessionData { state: SessionState::Grace { since: now }, ..t.sessions[k] }
                } else {
                    t.sessions[k]
                })
            &&& forall|k: int|
                0 <= k < events.len() ==> is_a_close(t, now, #[trigger] events[k])
        }),
    decreases order.len(),
{
    if order.len() > 0 {
        let init = order.drop_last();
        let last = order.last();
        assert forall|k: u32| #[trigger] order.contains(k) == (init.contains(k) || k == last) by {
            if init.contains(k) {
                let x = choose|x: int| 0 <= x < init.len() && init[x] == k;
                assert(order[x] == k);
            }
            if k == last {
                assert(order[order.len() - 1] == k);
            }
            if order.contains(k) && k != last {
                let x = choose|x: int| 0 <= x < order.len() && order[x] == k;
                assert(init[x] == k);
            }
        }
        assert(!init.contains(last)) by {
            if init.contains(last) {
                let x = choose|x: int| 0 <= x < init.len() && init[x] == last;
                assert(order[x] == order[order.len() - 1]);
            }
        }
        assert(init.no_duplicates());
        assert forall|k: u32| #[trigger] init.contains(k) implies t.sessions.contains_key(k) by {
            assert(order.contains(k));
        }
        ageing_so_far(t, init, now);
        let (u, events) = maintain::all_aged(t, init, now);
        assert(order.contains(last));
        assert(u.sessions.contains_key(last));
        assert(u.sessions[last] == t.sessions[last]);
        let (v, more) = maintain::aged(u, last, now);
        assert forall|k: int| 0 <= k < (events + more).len() implies is_a_close(
            t,
            now,
            #[trigger] (events + more)[k],
        ) by {
            if k >= events.len() {
                assert((events + more)[k] == more[k - events.len()]);
                assert(t.sessions.contains_key(last));
            } else {
                assert((events + more)[k] == events[k]);
            }
        }
    }
}

/// A session that was heard of lately is left alone.
pub proof fn lively_sessions_are_left_alone(t: TableData, order: Seq<u32>, now: Nanos, k: u32)
    requires
        maintain::is_walk(t, order),
        t.sessions.contains_key(k),
        t.sessions[k].state == SessionState::Active,
        retransmit::elapsed(now, t.sessions[k].last_rx) < maintain::idle_limit(
            t.cfg,
            t.sessions[k],
        ),
    ensures
        maintain::all_aged(t, order, now).0.sessions.contains_key(k),
        maintain::all_aged(t, order, now).0.sessions[k] == t.sessions[k],
{
    ageing_does_not_depend_on_the_order(t, order, now);
}

/// No session is closed while it is active: it has a grace period first, and is closed only once
/// that is over.
pub proof fn closing_takes_a_grace_period(t: TableData, order: Seq<u32>, now: Nanos, k: u32)
    requires
        maintain::is_walk(t, order),
        t.sessions.contains_key(k),
        !maintain::all_aged(t, order, now).0.sessions.contains_key(k),
    ensures
        t.sessions[k].state matches SessionState::Grace { since } && retransmit::elapsed(now, since)
            >= maintain::grace_limit(t.cfg, t.sessions[k]),
{
    ageing_does_not_depend_on_the_order(t, order, now);
}

/// The adaptive limits stay between their bounds.
pub proof fn limits_stay_in_bounds(cfg: SessionTableConfig, s: SessionData)
    requires
        cfg.dynamic_timeouts,
        maintain::bounds_ordered(cfg),
    ensures
        cfg.timeout_min <= maintain::idle_limit(cfg, s) <= cfg.timeout_max,
        cfg.reconnect_min <= maintain::grace_limit(cfg, s) <= cfg.reconnect_max,
{
}

// Sending.

/// The header and the frame of datagram `i` of a message.
pub open spec fn sent_header(
    cfg: SessionTableConfig,
    s: SessionData,
    ch: u8,
    payload: Seq<u8>,
    i: int,
) -> DatagramHeader {
    send::out_header(
        cfg,
        s,
        serial::seq_plus(s.send_seq, i),
        ch == CH_RELIABLE_ORDERED && payload.len() > FRAGMENT_THRESHOLD,
    )
}

/// The frame of datagram `i` of a message: the message, or a fragment of it.
pub open spec fn sent_frame(
    s: SessionData,
    ch: u8,
    msg_id: u16,
    payload: Seq<u8>,
    i: int,
) -> FrameView {
    FrameView {
        ch,
        msg_id,
        body: if ch == CH_RELIABLE_ORDERED && payload.len() > FRAGMENT_THRESHOLD {
            fragment::fragments(
                payload,
                s.frag_group_id,
                s.send_seq,
                FRAGMENT_THRESHOLD as nat,
            )[i]
        } else {
            payload
        },
    }
}

/// The data that a peer who knows the secret finds in a datagram.
pub open spec fn unsealed(cfg: SessionTableConfig, secret: u64, bytes: Seq<u8>) -> Option<Seq<u8>> {
    if cfg.enable_hmac {
        seal::opened(
            bytes,
            seal::hmac4_of(seal::key_of(secret), bytes.take(bytes.len() - HMAC_LEN)),
        )
    } else {
        Some(bytes)
    }
}

/// What is sent can be read: in each datagram of a message, a peer who knows the session's secret
/// finds the right HMAC, a header with the next sequence number, and the message or its fragment.
pub proof fn sent_datagrams_are_read(
    cfg: SessionTableConfig,
    s: SessionData,
    ch: u8,
    msg_id: u16,
    payload: Seq<u8>,
    now: Nanos,
    i: int,
)
    requires
        send::sent(cfg, s, ch, msg_id, payload, now) is Done,
        0 <= i < send::sent(cfg, s, ch, msg_id, payload, now)->datagrams.len(),
    ensures
        ({
            let bytes = send::sent(cfg, s, ch, msg_id, payload, now)->datagrams[i];
            &&& unsealed(cfg, s.secret, bytes) is Some
            &&& datagram::parse(unsealed(cfg, s.secret, bytes)->0) == Ok::<
                (DatagramHeader, Seq<FrameView>),
                crate::error::ProtocolError,
            >(
                (
                    sent_header(cfg, s, ch, payload, i),
                    seq![sent_frame(s, ch, msg_id, payload, i)],
                ),
            )
        }),
{
    let h = sent_header(cfg, s, ch, payload, i);
    let f = sent_frame(s, ch, msg_id, payload, i);
    let split = ch == CH_RELIABLE_ORDERED && payload.len() > FRAGMENT_THRESHOLD;
    serial::seq_plus_circle(s.send_seq);
    if split {
        send::fragment_is_encodable(cfg, s, msg_id, payload, i);
    }
    let data = datagram::datagram_bytes(h, seq![f]);
    assert(datagram::encode_fault(h, seq![f]) is None);
    datagram::decode_inverts_encode(h, seq![f]);
    if cfg.enable_hmac {
        seal::open_inverts_seal(s.secret, data);
        let bytes = seal::sealed(s.secret, data);
        assert(bytes.take(bytes.len() - HMAC_LEN) =~= data);
    }
}

/// Reliable messages wait for their acknowledgement with the very bytes that were sent, behind
/// those that wait already; nothing is taken out of the queue by sending.
pub proof fn reliable_messages_wait(
    cfg: SessionTableConfig,
    s: SessionData,
    ch: u8,
    msg_id: u16,
    payload: Seq<u8>,
    now: Nanos,
)
    requires
        send::is_reliable(ch),
        send::sent(cfg, s, ch, msg_id, payload, now) is Done,
    ensures
        ({
            let t = send::sent(cfg, s, ch, msg_id, payload, now)->Done_session;
            let datagrams = send::sent(cfg, s, ch, msg_id, payload, now)->datagrams;
            let added = send::waiting(datagrams, s.send_seq, datagrams.len(), now);
            if ch == CH_RELIABLE_ORDERED {
                t.retrans_ordered == s.retrans_ordered + added && t.retrans_unordered
                    == s.retrans_unordered
            } else {
                t.retrans_unordered == s.retrans_unordered + added && t.retrans_ordered
                    == s.retrans_ordered
            }
        }),
{
    serial::seq_plus_circle(s.send_seq);
    match send::sent(cfg, s, ch, msg_id, payload, now) {
        Sent::Done { session, datagrams } => {
            let added = send::waiting(datagrams, s.send_seq, datagrams.len(), now);
            if ch == CH_RELIABLE_ORDERED {
                assert(session.retrans_ordered =~= s.retrans_ordered + added);
            } else {
                assert(session.retrans_unordered =~= s.retrans_unordered + added);
            }
        },
        _ => {},
    }
}

// Acknowledgements.

/// The acknowledgement bits say exactly which of the next packets are held.
pub proof fn ack_bits_are_exact(s: SessionData, i: int)
    requires
        0 <= i < 32,
    ensures
        retransmit::has_bit(peer::ack_bits_of(s), i) == peer::holds(
            s,
            serial::seq_plus(peer::ack_of(s), i + 1),
        ),
{
    ack_bits_so_far(s, 32, i);
}

/// The first `n` acknowledgement bits.
proof fn ack_bits_so_far(s: SessionData, n: nat, i: int)
    requires
        0 <= i < 32,
        n <= 32,
    ensures
        retransmit::has_bit(peer::ack_bits_upto(s, n), i) == (i < n && peer::holds(
            s,
            serial::seq_plus(peer::ack_of(s), i + 1),
        )),
    decreases n,
{
    if n == 0 {
        window::marked_bit(0, 0, i as u32);
    } else {
        ack_bits_so_far(s, (n - 1) as nat, i);
        window::marked_bit(peer::ack_bits_upto(s, (n - 1) as nat), (n - 1) as u32, i as u32);
    }
}

/// What a report covers was received: a packet that is not after `ack` was delivered or is from
/// before the delivered range, and one that is after it is held. So a sender never forgets a
/// packet of channel 2 that the receiver is still without.
pub proof fn acknowledged_packets_were_received(s: SessionData, seq: u16)
    requires
        retransmit::covers(seq, peer::ack_of(s), peer::ack_bits_of(s)),
    ensures
        !serial::is_newer(seq, peer::ack_of(s)) || peer::holds(s, seq),
{
    let ack = peer::ack_of(s);
    if serial::is_newer(seq, ack) {
        let ahead = serial::seq_distance(seq, ack);
        ack_bits_are_exact(s, ahead - 1);
        serial::plus_of_distance(ack, seq);
    }
}

/// What the receiver reports, the sender can rely on, and forgets only that: whatever leaves the
/// sender's queue when a report of session `s` arrives was received by `s`.
pub proof fn only_received_packets_are_forgotten(
    s: SessionData,
    q: Seq<retransmit::Pending>,
    i: int,
)
    requires
        0 <= i < retransmit::covered_prefix(q, peer::ack_of(s), peer::ack_bits_of(s)),
    ensures
        i < q.len(),
        !serial::is_newer(q[i].seq, peer::ack_of(s)) || peer::holds(s, q[i].seq),
{
    retransmit::only_covered_packets_leave(q, peer::ack_of(s), peer::ack_bits_of(s));
    acknowledged_packets_were_received(s, q[i].seq);
}

// The budget.

/// A session with a budget may send if and only if what its window still holds and what it asks
/// for fit the budget. What it may send is added to the window; what it may not send is not.
pub proof fn budgets_are_kept(s: SessionData, bytes: u64, now: Nanos, kbps: u16)
    requires
        s.budget_kbps == Some(kbps),
    ensures
        ({
            let (t, ok) = send::budgeted(s, bytes, now);
            let held = send::recent(s.bytes_window, now);
            &&& ok <==> peer::window_sum(held) + bytes <= kbps as nat * 125
            &&& t.bytes_window == if ok {
                held.push((now, bytes))
            } else {
                held
            }
        }),
{
}

/// What is forgotten of what was sent is a second old or older; everything younger counts.
pub proof fn only_old_sends_are_forgotten(w: Seq<(Nanos, u64)>, now: Nanos) -> (k: int)
    ensures
        0 <= k <= w.len(),
        send::recent(w, now) == w.skip(k),
        forall|i: int|
            0 <= i < k ==> retransmit::elapsed(now, (#[trigger] w[i]).0)
                >= crate::protocol::types::SECOND,
    decreases w.len(),
{
    if w.len() > 0 && retransmit::elapsed(now, w[0].0) >= crate::protocol::types::SECOND {
        let k = only_old_sends_are_forgotten(w.skip(1), now);
        assert(w.skip(1).skip(k) =~= w.skip(k + 1));
        assert forall|i: int| 0 <= i < k + 1 implies retransmit::elapsed(now, (#[trigger] w[i]).0)
            >= crate::protocol::types::SECOND by {
            if i > 0 {
                assert(w.skip(1)[i - 1] == w[i]);
            }
        }
        k + 1
    } else {
        assert(w.skip(0) =~= w);
        0
    }
}

/// A session without a budget may send whatever it likes.
pub proof fn no_budget_no_limit(s: SessionData, bytes: u64, now: Nanos)
    requires
        s.budget_kbps is None,
    ensures
        send::budgeted(s, bytes, now) == (s, true),
{
}

} // verus!
