//! Datagrams that arrive from clients.

use vstd::prelude::*;

use crate::addr::PeerAddr;
use crate::outside::random_bytes;
use crate::protocol::datagram::{self, DatagramHeader, FrameRef, FrameView, HEADER_LEN};
use crate::protocol::types::{Nanos, FLAG_HANDSHAKE, FLAG_HMAC, VERSION};
use crate::session::event::{self, Event, SessionEvent};
use crate::session::handshake::{self, Challenge};
use crate::session::inbound;
use crate::session::peer::{self, Session};
use crate::session::seal::{self, HMAC_LEN};
use crate::session::table::{self, SessionTable, TableData};
use crate::stats::{self, StatsSnapshot};
use crate::wire::{self, get_u32, get_u64, same_bytes};

verus! {

/// What a datagram leads to: the table afterwards, the events for the logic server, and the
/// answer to its sender.
#[verifier::ext_equal]
pub struct Outcome {
    pub table: TableData,
    pub events: Seq<Event>,
    pub reply: Option<Seq<u8>>,
}

/// What comes of checking the HMAC of a datagram.
pub enum Checked {
    /// It carries none: HMACs are off, or it belongs to a handshake, or it is not marked.
    Plain,
    /// It carries the right one, behind this data.
    Sealed { data: Seq<u8> },
    /// It carries a wrong one, or none where one is announced, or names no session.
    Bad,
}

/// Checks the HMAC of a datagram.
pub open spec fn checked(t: TableData, buf: Seq<u8>) -> Checked {
    let conn_id = wire::le_value(buf.subrange(4, 8)) as u32;
    if !t.cfg.enable_hmac || buf.len() < HEADER_LEN {
        Checked::Plain
    } else if buf[3] & (FLAG_HANDSHAKE | FLAG_HMAC) != FLAG_HMAC {
        Checked::Plain
    } else if buf.len() < HEADER_LEN + HMAC_LEN || !t.sessions.contains_key(conn_id) {
        Checked::Bad
    } else {
        let mac = seal::hmac4_of(
            seal::key_of(t.sessions[conn_id].secret),
            buf.take(buf.len() - HMAC_LEN),
        );
        match seal::opened(buf, mac) {
            Some(data) => Checked::Sealed { data },
            None => Checked::Bad,
        }
    }
}

/// A datagram that could not be used.
pub open spec fn dropped(t: TableData) -> Outcome {
    Outcome {
        table: TableData {
            stats: StatsSnapshot { pkt_bad: stats::count_sum(t.stats.pkt_bad, 1), ..t.stats },
            ..t
        },
        events: Seq::empty(),
        reply: None,
    }
}

/// The header of the engine's side of a handshake.
pub open spec fn answer_header(conn_id: u32) -> DatagramHeader {
    DatagramHeader { version: VERSION, flags: FLAG_HANDSHAKE, conn_id, seq: 0, ack: 0, ack_bits: 0 }
}

/// The engine's side of a handshake: eight bytes in one frame.
pub open spec fn answer(conn_id: u32, bytes: Seq<u8>) -> Seq<u8> {
    datagram::datagram_bytes(
        answer_header(conn_id),
        seq![FrameView { ch: 0, msg_id: 0, body: bytes }],
    )
}

/// The length of the engine's side of a handshake.
pub const ANSWER_LEN: usize = 28;

/// A peer that was not challenged yet is challenged with `random`. The challenge is sent only if
/// it is no longer than what it answers.
pub open spec fn challenged(t: TableData, peer: PeerAddr, len: nat, random: Seq<u8>, now: Nanos) -> Outcome {
    Outcome {
        table: TableData {
            pending: t.pending.insert(peer, Challenge { bytes: random, created: now }),
            stats: StatsSnapshot {
                sessions_handshaking: stats::count_sum(t.stats.sessions_handshaking, 1),
                ..t.stats
            },
            ..t
        },
        events: Seq::empty(),
        reply: if ANSWER_LEN <= len {
            Some(answer(0, random))
        } else {
            None
        },
    }
}

/// A peer that answered its challenge gets a session, with `random` for its secret.
pub open spec fn admitted(
    t: TableData,
    peer: PeerAddr,
    token: Seq<u8>,
    random: Seq<u8>,
    now: Nanos,
) -> Outcome {
    let conn_id = (t.next_conn_id % 0x1_0000_0000) as u32;
    let sess_id = t.next_sess_id;
    Outcome {
        table: TableData {
            sessions: t.sessions.insert(
                conn_id,
                peer::fresh(conn_id, sess_id, peer, wire::le_value(random) as u64, token, now),
            ),
            pending: t.pending.remove(peer),
            next_conn_id: stats::count_sum(t.next_conn_id, 1),
            next_sess_id: (sess_id + 1) as u64,
            stats: StatsSnapshot {
                sessions_active: stats::count_sum(t.stats.sessions_active, 1),
                ..t.stats
            },
            ..t
        },
        events: seq![Event::Open { sess_id, peer, token }],
        reply: Some(answer(conn_id, random)),
    }
}

/// A handshake datagram of `len` bytes: three exchanges, so that nobody is answered at an address
/// that is not theirs.
///
/// 1. The client asks; its token is in the first frame.
/// 2. The engine challenges it with eight random bytes.
/// 3. The client sends the challenge back, with its token behind it, and has a session.
pub open spec fn handshake_received(
    t: TableData,
    peer: PeerAddr,
    frames: Seq<FrameView>,
    len: nat,
    random: Seq<u8>,
    now: Nanos,
) -> Outcome {
    let body = frames[0].body;
    let u = TableData {
        pending: handshake::unexpired(t.pending, now, t.cfg.handshake_timeout),
        ..t
    };
    if frames.len() == 0 {
        dropped(t)
    } else if !u.pending.contains_key(peer) {
        challenged(u, peer, len, random, now)
    } else if body.len() < 8 || body.take(8) != u.pending[peer].bytes {
        dropped(u)
    } else {
        admitted(u, peer, body.skip(8), random, now)
    }
}

/// A datagram that names a session.
pub open spec fn session_received(
    t: TableData,
    peer: PeerAddr,
    h: DatagramHeader,
    frames: Seq<FrameView>,
    now: Nanos,
) -> Outcome {
    if !t.sessions.contains_key(h.conn_id) {
        dropped(t)
    } else {
        let i = inbound::packet_received(t.sessions[h.conn_id], peer, h, frames, t.stats, now);
        Outcome {
            table: TableData {
                sessions: t.sessions.insert(h.conn_id, i.session),
                stats: i.stats,
                ..t
            },
            events: i.events,
            reply: inbound::packet_reply(i),
        }
    }
}

/// A datagram whose HMAC was dealt with.
pub open spec fn data_received(
    t: TableData,
    peer: PeerAddr,
    data: Seq<u8>,
    random: Seq<u8>,
    now: Nanos,
) -> Outcome {
    match datagram::parse(data) {
        Err(_) => dropped(t),
        Ok((h, frames)) => {
            let u = TableData {
                stats: StatsSnapshot { pkt_in: stats::count_sum(t.stats.pkt_in, 1), ..t.stats },
                ..t
            };
            if h.flags & FLAG_HANDSHAKE != 0 {
                handshake_received(u, peer, frames, data.len(), random, now)
            } else if h.conn_id == 0 {
                dropped(u)
            } else {
                session_received(u, peer, h, frames, now)
            }
        },
    }
}

/// A datagram from a client. `random` are the eight random bytes that a handshake uses up.
pub open spec fn received(
    t: TableData,
    peer: PeerAddr,
    buf: Seq<u8>,
    random: Seq<u8>,
    now: Nanos,
) -> Outcome {
    match checked(t, buf) {
        Checked::Bad => dropped(t),
        Checked::Plain => data_received(t, peer, buf, random, now),
        Checked::Sealed { data } => data_received(t, peer, data, random, now),
    }
}

/// What comes of checking the HMAC of a datagram.
enum HmacResult<'a> {
    Sealed(&'a [u8]),
    NoHmac,
    Bad,
}

/// What the table answers to a datagram: events for the logic server, and bytes for its sender.
#[derive(Debug)]
pub struct Handled {
    pub events: Vec<SessionEvent>,
    pub reply: Option<Vec<u8>>,
}

impl Handled {
    /// The outcome of a datagram that left the table as `table`.
    pub open spec fn outcome(&self, table: TableData) -> Outcome {
        Outcome {
            table,
            events: event::events_view(self.events@),
            reply: inbound::reply_view(self.reply),
        }
    }
}

/// The engine's side of a handshake is 28 bytes long.
pub proof fn answer_len(conn_id: u32, bytes: Seq<u8>)
    requires
        bytes.len() == 8,
    ensures
        answer(conn_id, bytes).len() == ANSWER_LEN,
        datagram::encode_fault(
            answer_header(conn_id),
            seq![FrameView { ch: 0, msg_id: 0, body: bytes }],
        ) is None,
{
    let f = FrameView { ch: 0, msg_id: 0, body: bytes };
    let frames = seq![f];
    datagram::header_bytes_len(answer_header(conn_id));
    wire::le_bytes_len(0, 2);
    wire::le_bytes_len(8, 2);
    assert(frames.skip(1) =~= Seq::<FrameView>::empty());
    reveal_with_fuel(datagram::frames_bytes, 2);
    reveal_with_fuel(datagram::frames_fault, 2);
}

/// The engine's side of a handshake.
fn make_answer(conn_id: u32, bytes: &[u8; 8]) -> (out: Vec<u8>)
    ensures
        out@ == answer(conn_id, bytes@),
        out@.len() == ANSWER_LEN,
{
    let resp = DatagramHeader {
        version: VERSION,
        flags: FLAG_HANDSHAKE,
        conn_id,
        seq: 0,
        ack: 0,
        ack_bits: 0,
    };
    let mut frames: Vec<FrameRef> = Vec::new();
    frames.push(FrameRef::new(0, 0, bytes));
    let mut out: Vec<u8> = Vec::new();
    proof {
        answer_len(conn_id, bytes@);
        assert(datagram::frame_views(frames@) =~= seq![
            FrameView { ch: 0, msg_id: 0, body: bytes@ },
        ]);
    }
    let _len = datagram::encode(&resp, frames.as_slice(), &mut out);
    assert(out@ =~= answer(conn_id, bytes@));
    out
}

impl SessionTable {
    /// Checks the HMAC of a datagram.
    fn verify_hmac<'a>(&self, buf: &'a [u8]) -> (r: HmacResult<'a>)
        requires
            self.wf(),
        ensures
            match checked(self@, buf@) {
                Checked::Plain => r is NoHmac,
                Checked::Bad => r is Bad,
                Checked::Sealed { data } => r matches HmacResult::Sealed(d) && d@ == data,
            },
    {
        if !self.cfg.enable_hmac || buf.len() < HEADER_LEN {
            return HmacResult::NoHmac;
        }
        let flags: u8 = buf[3];
        if flags & (FLAG_HANDSHAKE | FLAG_HMAC) != FLAG_HMAC {
            return HmacResult::NoHmac;
        }
        if buf.len() < HEADER_LEN + HMAC_LEN {
            return HmacResult::Bad;
        }
        let conn_id: u32 = get_u32(buf, 4);
        match self.store.get(conn_id) {
            None => HmacResult::Bad,
            Some(session) => {
                let data = vstd::slice::slice_subrange(buf, 0, buf.len() - HMAC_LEN);
                assert(data@ =~= buf@.take(buf@.len() - HMAC_LEN));
                let key = seal::secret_key(session.secret);
                let mac = seal::hmac4(key.as_slice(), data);
                match seal::open_with(buf, &mac) {
                    Some(data) => HmacResult::Sealed(data),
                    None => HmacResult::Bad,
                }
            },
        }
    }

    /// Counts a datagram that could not be used.
    fn drop_datagram(&mut self) -> (r: Handled)
        requires
            old(self).wf(),
        ensures
            final(self).wf(),
            r.outcome(final(self)@) == dropped(old(self)@),
    {
        let ghost t = self@;
        self.stats.pkt_bad.incr();
        let r = Handled { events: Vec::new(), reply: None };
        assert(self@ =~= dropped(t).table);
        assert(event::events_view(r.events@) =~= Seq::<Event>::empty());
        r
    }

    /// Takes in a handshake datagram of `len` bytes.
    fn handle_handshake(
        &mut self,
        peer: PeerAddr,
        frames: &Vec<FrameRef>,
        len: usize,
        random: [u8; 8],
        now: Nanos,
    ) -> (r: Handled)
        requires
            old(self).wf(),
            table::ids_left(old(self)@),
        ensures
            final(self).wf(),
            r.outcome(final(self)@) == handshake_received(
                old(self)@,
                peer,
                datagram::frame_views(frames@),
                len as nat,
                random@,
                now,
            ),
    {
        let ghost t = self@;
        let ghost views = datagram::frame_views(frames@);
        if frames.len() == 0 {
            return self.drop_datagram();
        }
        let body: &[u8] = frames[0].body;
        assert(views[0].body == body@);
        self.pending.expire(now, self.cfg.handshake_timeout);
        let ghost u = self@;
        assert(u =~= (TableData {
            pending: handshake::unexpired(t.pending, now, t.cfg.handshake_timeout),
            ..t
        }));
        match self.pending.get(peer) {
            None => {
                self.pending.insert(peer, random, now);
                self.stats.sessions_handshaking.incr();
                let out = make_answer(0, &random);
                let reply = if out.len() <= len {
                    Some(out)
                } else {
                    None
                };
                let r = Handled { events: Vec::new(), reply };
                assert(self@ =~= challenged(u, peer, len as nat, random@, now).table);
                assert(event::events_view(r.events@) =~= Seq::<Event>::empty());
                r
            },
            Some(challenge) => {
                if body.len() < 8 {
                    return self.drop_datagram();
                }
                let echo = vstd::slice::slice_subrange(body, 0, 8);
                assert(echo@ =~= body@.take(8));
                if !same_bytes(echo, &challenge) {
                    return self.drop_datagram();
                }
                let token = vstd::slice::slice_subrange(body, 8, body.len());
                assert(token@ =~= body@.skip(8));
                self.open_session(peer, token, random, now)
            },
        }
    }

    /// Opens a session for a peer that answered its challenge.
    fn open_session(&mut self, peer: PeerAddr, token: &[u8], random: [u8; 8], now: Nanos) -> (r: Handled)
        requires
            old(self).wf(),
            table::ids_left(old(self)@),
        ensures
            final(self).wf(),
            r.outcome(final(self)@) == admitted(old(self)@, peer, token@, random@, now),
    {
        let ghost t = self@;
        self.pending.remove(peer);
        let next: u64 = self.next_conn_id;
        assert(next as u32 == next % 0x1_0000_0000) by (bit_vector);
        let conn_id: u32 = next as u32;
        self.next_conn_id = next.wrapping_add(1);
        let sess_id: u64 = self.next_sess_id;
        self.next_sess_id = sess_id + 1;
        let secret: u64 = get_u64(&random, 0);
        assert(random@.subrange(0, 8) =~= random@);
        let session = Session::new(conn_id, sess_id, peer, secret, wire::to_vec(token), now);
        self.store.put(conn_id, session);
        self.stats.sessions_active.incr();
        let reply = make_answer(conn_id, &random);
        let mut events: Vec<SessionEvent> = Vec::new();
        events.push(SessionEvent::Open { sess_id, peer, token: wire::to_vec(token) });
        let r = Handled { events, reply: Some(reply) };
        let ghost want = admitted(t, peer, token@, random@, now);
        assert(self@ =~= want.table);
        assert(event::events_view(r.events@) =~= want.events);
        r
    }

    /// Takes in a datagram that names a session.
    fn handle_session_packet(
        &mut self,
        peer: PeerAddr,
        header: &DatagramHeader,
        frames: &Vec<FrameRef>,
        now: Nanos,
    ) -> (r: Handled)
        requires
            old(self).wf(),
        ensures
            final(self).wf(),
            r.outcome(final(self)@) == session_received(
                old(self)@,
                peer,
                *header,
                datagram::frame_views(frames@),
                now,
            ),
    {
        let ghost t = self@;
        let ghost views = datagram::frame_views(frames@);
        let conn_id: u32 = header.conn_id;
        match self.store.take(conn_id) {
            None => {
                assert(self@ =~= t);
                self.drop_datagram()
            },
            Some(taken) => {
                let mut session = taken;
                let mut events: Vec<SessionEvent> = Vec::new();
                assert(event::events_view(events@) =~= Seq::<Event>::empty());
                let reply = session.handle_packet(
                    peer,
                    header,
                    frames,
                    now,
                    &mut events,
                    &mut self.stats,
                );
                proof {
                    inbound::packet_keeps_the_session(
                        t.sessions[conn_id],
                        peer,
                        *header,
                        views,
                        t.stats,
                        now,
                    );
                }
                self.store.put(conn_id, session);
                let r = Handled { events, reply };
                let ghost want = session_received(t, peer, *header, views, now);
                assert(self@.sessions =~= want.table.sessions);
                assert(self@ =~= want.table);
                assert(event::events_view(r.events@) =~= want.events);
                r
            },
        }
    }

    /// Takes in a datagram whose HMAC was dealt with.
    fn handle_data(&mut self, peer: PeerAddr, data: &[u8], random: [u8; 8], now: Nanos) -> (r: Handled)
        requires
            old(self).wf(),
            table::ids_left(old(self)@),
        ensures
            final(self).wf(),
            r.outcome(final(self)@) == data_received(old(self)@, peer, data@, random@, now),
    {
        let ghost t = self@;
        match datagram::decode(data) {
            Err(_) => self.drop_datagram(),
            Ok((header, frames)) => {
                self.stats.pkt_in.incr();
                assert(self@ =~= (TableData {
                    stats: StatsSnapshot { pkt_in: stats::count_sum(t.stats.pkt_in, 1), ..t.stats },
                    ..t
                }));
                if header.flags & FLAG_HANDSHAKE != 0 {
                    self.handle_handshake(peer, &frames, data.len(), random, now)
                } else if header.conn_id == 0 {
                    self.drop_datagram()
                } else {
                    self.handle_session_packet(peer, &header, &frames, now)
                }
            },
        }
    }

    /// Takes in a datagram from a client, with the eight random bytes that a handshake uses up.
    pub fn handle_datagram_with(
        &mut self,
        peer: PeerAddr,
        buf: &[u8],
        random: [u8; 8],
        now: Nanos,
    ) -> (r: Handled)
        requires
            old(self).wf(),
            table::ids_left(old(self)@),
        ensures
            final(self).wf(),
            r.outcome(final(self)@) == received(old(self)@, peer, buf@, random@, now),
    {
        match self.verify_hmac(buf) {
            HmacResult::Bad => self.drop_datagram(),
            HmacResult::NoHmac => self.handle_data(peer, buf, random, now),
            HmacResult::Sealed(data) => self.handle_data(peer, data, random, now),
        }
    }

    /// Takes in a datagram from a client. Only a handshake uses up random bytes.
    pub fn handle_datagram(&mut self, peer: PeerAddr, buf: &[u8], now: Nanos) -> (r: Handled)
        requires
            old(self).wf(),
            table::ids_left(old(self)@),
        ensures
            final(self).wf(),
            exists|random: Seq<u8>|
                random.len() == 8 && r.outcome(final(self)@) == #[trigger] received(
                    old(self)@,
                    peer,
                    buf@,
                    random,
                    now,
                ),
    {
        let random: [u8; 8] = if buf.len() > 3 && buf[3] & FLAG_HANDSHAKE != 0 {
            random_bytes()
        } else {
            [0u8; 8]
        };
        let r = self.handle_datagram_with(peer, buf, random, now);
        assert(random@.len() == 8);
        r
    }
}

// What receiving promises.

/// A datagram does not change the configuration.
pub proof fn received_keeps_cfg(
    t: TableData,
    peer: PeerAddr,
    buf: Seq<u8>,
    random: Seq<u8>,
    now: Nanos,
)
    ensures
        received(t, peer, buf, random, now).table.cfg == t.cfg,
{
}

} // verus!
