//! How much a message to a session will take, before anything is done about it.

use vstd::prelude::*;

use crate::addr::PeerAddr;
use crate::error::{Error, ProtocolError};
use crate::protocol::datagram::{self, FrameView};
use crate::protocol::types::{Nanos, CH_RELIABLE_ORDERED, MTU};
use crate::reliable::fragment::{self, FRAGMENT_THRESHOLD, FRAG_HEADER_LEN};
use crate::reliable::serial;
use crate::session::peer::{SessionData, SessionState};
use crate::session::seal::{self, HMAC_LEN};
use crate::session::table::send;
use crate::session::table::{SessionTable, SessionTableConfig, TableData};
use crate::wire;

verus! {

/// Why a message cannot be sent to a session, if there is a reason.
pub open spec fn message_fault(
    cfg: SessionTableConfig,
    s: SessionData,
    ch: u8,
    msg_id: u16,
    payload: Seq<u8>,
) -> Option<ProtocolError> {
    if send::is_split(ch, payload) {
        if msg_id > 0x0FFF {
            Some(ProtocolError::BadMsgId { msg_id })
        } else {
            None
        }
    } else {
        send::out_fault(
            cfg,
            send::out_header(cfg, s, s.send_seq, false),
            FrameView { ch, msg_id, body: payload },
        )
    }
}

/// The datagrams that a message to a session takes.
pub open spec fn message_datagrams(
    cfg: SessionTableConfig,
    s: SessionData,
    ch: u8,
    msg_id: u16,
    payload: Seq<u8>,
) -> Seq<Seq<u8>> {
    if send::is_split(ch, payload) {
        send::fragment_datagrams(cfg, s, msg_id, payload)
    } else {
        seq![
            send::out_bytes(cfg, s, s.send_seq, false, FrameView { ch, msg_id, body: payload }),
        ]
    }
}

/// The bytes that a message to a session id takes; `None` if it cannot be sent at all: the channel
/// does not exist, the session is not active, or the message has a fault.
pub open spec fn planned(t: TableData, sess_id: u64, ch: u8, msg_id: u16, payload: Seq<u8>) -> Option<
    nat,
> {
    match send::conn_of(t, sess_id) {
        None => None,
        Some(k) => {
            let s = t.sessions[k];
            if ch > 3 || s.state != SessionState::Active || message_fault(
                t.cfg,
                s,
                ch,
                msg_id,
                payload,
            ) is Some {
                None
            } else {
                Some(
                    send::total_len(
                        send::addressed(
                            message_datagrams(t.cfg, s, ch, msg_id, payload),
                            s.peer,
                        ),
                    ),
                )
            }
        },
    }
}

/// A number of bytes as 64 bits hold it, or the most that they hold.
pub open spec fn capped(n: nat) -> u64 {
    if n > u64::MAX {
        u64::MAX
    } else {
        n as u64
    }
}

/// How many pieces a payload has.
proof fn pieces_count(payload: Seq<u8>)
    ensures
        fragment::pieces(payload, FRAGMENT_THRESHOLD as nat).len() == (payload.len()
            + FRAGMENT_THRESHOLD - 1) / (FRAGMENT_THRESHOLD as int),
    decreases payload.len(),
{
    if payload.len() > FRAGMENT_THRESHOLD {
        pieces_count(payload.skip(FRAGMENT_THRESHOLD as int));
    }
}

/// Datagrams that are each `c` bytes longer than a piece.
proof fn sum_of_pieces(
    datagrams: Seq<Seq<u8>>,
    pieces: Seq<Seq<u8>>,
    c: nat,
    to: PeerAddr,
)
    requires
        datagrams.len() == pieces.len(),
        forall|i: int| 0 <= i < pieces.len() ==> (#[trigger] datagrams[i]).len() == pieces[i].len() + c,
    ensures
        send::total_len(send::addressed(datagrams, to)) == fragment::joined(
            pieces.map_values(|p: Seq<u8>| Some(p)),
        ).len() + c * pieces.len(),
    decreases pieces.len(),
{
    let d = send::addressed(datagrams, to);
    let parts = pieces.map_values(|p: Seq<u8>| Some(p));
    if pieces.len() > 0 {
        let n = pieces.len() - 1;
        let d0 = datagrams.drop_last();
        let p0 = pieces.drop_last();
        assert forall|i: int| 0 <= i < p0.len() implies (#[trigger] d0[i]).len() == p0[i].len() + c by {
            assert(d0[i] == datagrams[i]);
        }
        sum_of_pieces(d0, p0, c, to);
        assert(d.drop_last() =~= send::addressed(d0, to));
        assert(parts.drop_last() =~= p0.map_values(|p: Seq<u8>| Some(p)));
        assert(datagrams[n].len() == pieces[n].len() + c);
        assert(c * (n + 1) == c * n + c) by (nonlinear_arith);
    } else {
        assert(c * pieces.len() == 0) by (nonlinear_arith)
            requires
                pieces.len() == 0,
        ;
    }
}

/// What the fragments of a message take.
pub proof fn fragments_take(cfg: SessionTableConfig, s: SessionData, msg_id: u16, payload: Seq<u8>)
    requires
        msg_id <= 0x0FFF,
        payload.len() > 0,
    ensures
        ({
            let c: int = if cfg.enable_hmac {
                30
            } else {
                26
            };
            send::total_len(
                send::addressed(send::fragment_datagrams(cfg, s, msg_id, payload), s.peer),
            ) == payload.len() + c * ((payload.len() + FRAGMENT_THRESHOLD - 1) / (
            FRAGMENT_THRESHOLD as int))
        }),
{
    let c: nat = if cfg.enable_hmac {
        30
    } else {
        26
    };
    let max = FRAGMENT_THRESHOLD as nat;
    let d = send::fragment_datagrams(cfg, s, msg_id, payload);
    let p = fragment::pieces(payload, max);
    let bodies = fragment::fragments(payload, s.frag_group_id, s.send_seq, max);
    wire::le_bytes_len(s.frag_group_id as nat, 2);
    wire::le_bytes_len(s.send_seq as nat, 2);
    assert forall|i: int| 0 <= i < p.len() implies (#[trigger] d[i]).len() == p[i].len() + c by {
        let h = send::out_header(cfg, s, serial::seq_plus(s.send_seq, i), true);
        let f = FrameView { ch: CH_RELIABLE_ORDERED, msg_id, body: bodies[i] };
        assert(bodies[i].len() == p[i].len() + FRAG_HEADER_LEN);
        send::fragment_is_encodable(cfg, s, msg_id, payload, i);
        send::one_frame_fits(h, f);
        seal::open_inverts_seal(s.secret, datagram::datagram_bytes(h, seq![f]));
    }
    sum_of_pieces(d, p, c, s.peer);
    fragment::pieces_join_to_the_payload(payload, max);
    pieces_count(payload);
}

/// What a message in one datagram takes.
pub proof fn whole_takes(cfg: SessionTableConfig, s: SessionData, f: FrameView)
    requires
        send::out_fault(cfg, send::out_header(cfg, s, s.send_seq, false), f) is None,
    ensures
        ({
            let c: int = if cfg.enable_hmac {
                24
            } else {
                20
            };
            send::total_len(
                send::addressed(seq![send::out_bytes(cfg, s, s.send_seq, false, f)], s.peer),
            ) == f.body.len() + c
        }),
{
    let h = send::out_header(cfg, s, s.send_seq, false);
    let bytes = send::out_bytes(cfg, s, s.send_seq, false, f);
    send::one_frame_fits(h, f);
    seal::open_inverts_seal(s.secret, datagram::datagram_bytes(h, seq![f]));
    let d = send::addressed(seq![bytes], s.peer);
    assert(d.drop_last() =~= Seq::empty());
    reveal_with_fuel(send::total_len, 2);
}

/// When a message in one datagram has a fault.
pub proof fn whole_fault(cfg: SessionTableConfig, s: SessionData, f: FrameView)
    requires
        f.ch <= 3,
    ensures
        (send::out_fault(cfg, send::out_header(cfg, s, s.send_seq, false), f) is None) == (f.msg_id
            <= 0x0FFF && f.body.len() + 20 + (if cfg.enable_hmac {
            HMAC_LEN as int
        } else {
            0
        }) <= MTU),
{
    let h = send::out_header(cfg, s, s.send_seq, false);
    reveal_with_fuel(datagram::frames_fault, 2);
    assert(seq![f].skip(1) =~= Seq::<FrameView>::empty());
    if datagram::encode_fault(h, seq![f]) is None {
        send::one_frame_fits(h, f);
    }
}

impl SessionTable {
    /// The bytes that a message to a session will take; `None` if it cannot be sent at all.
    pub fn planned_bytes(&self, sess_id: u64, ch: u8, msg_id: u16, payload: &[u8]) -> (r: Option<u64>)
        requires
            self.wf(),
        ensures
            match planned(self@, sess_id, ch, msg_id, payload@) {
                Some(n) => r == Some(capped(n)),
                None => r is None,
            },
    {
        let active: bool = self.is_active(sess_id);
        if ch > 3 || !active {
            return None;
        }
        let hmac: usize = if self.cfg.enable_hmac {
            HMAC_LEN
        } else {
            0
        };
        let len: usize = payload.len();
        let ghost s = self@.sessions[send::conn_of(self@, sess_id)->0];
        let ghost f = FrameView { ch, msg_id, body: payload@ };
        proof {
            whole_fault(self@.cfg, s, f);
        }
        if msg_id > 0x0FFF {
            return None;
        }
        if ch == CH_RELIABLE_ORDERED && len > FRAGMENT_THRESHOLD {
            proof {
                fragments_take(self@.cfg, s, msg_id, payload@);
            }
            let count: u128 = (len as u128 + (FRAGMENT_THRESHOLD as u128 - 1)) / (
            FRAGMENT_THRESHOLD as u128);
            let total: u128 = len as u128 + (26 + hmac as u128) * count;
            if total > u64::MAX as u128 {
                Some(u64::MAX)
            } else {
                Some(total as u64)
            }
        } else {
            if len > MTU || len + 20 + hmac > MTU {
                return None;
            }
            proof {
                whole_takes(self@.cfg, s, f);
            }
            Some((len + 20 + hmac) as u64)
        }
    }
}

/// What was planned is what is sent: the datagrams of a message take as many bytes as were planned
/// for it, and what cannot be planned is not sent.
pub proof fn plans_come_true(
    t: TableData,
    sess_id: u64,
    ch: u8,
    msg_id: u16,
    payload: Seq<u8>,
    now: Nanos,
)
    ensures
        match send::packed_out(t, sess_id, ch, msg_id, payload, now).1 {
            Ok(datagrams) => planned(t, sess_id, ch, msg_id, payload) == Some(
                send::total_len(datagrams),
            ),
            Err(e) => planned(t, sess_id, ch, msg_id, payload) is None || e
                == Error::Protocol(ProtocolError::RetransmitOverflow),
        },
{
}

} // verus!
