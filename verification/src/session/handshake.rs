//! Handshakes under way: who was challenged, with what, and when.

use vstd::prelude::*;

use crate::addr::PeerAddr;
use crate::protocol::types::Nanos;
use crate::reliable::retransmit;

verus! {

/// A challenge that waits for its answer.
#[derive(Debug, Clone, Copy)]
pub struct PendingHandshake {
    pub peer: PeerAddr,
    pub challenge: [u8; 8],
    pub created: Nanos,
}

/// What a challenge is.
#[verifier::ext_equal]
pub struct Challenge {
    pub bytes: Seq<u8>,
    pub created: Nanos,
}

impl PendingHandshake {
    /// What the challenge is.
    pub open spec fn challenge_view(&self) -> Challenge {
        Challenge { bytes: self.challenge@, created: self.created }
    }
}

/// The handshakes under way, one per peer.
#[derive(Debug)]
pub struct Handshakes {
    entries: Vec<PendingHandshake>,
}

/// The challenges in a list, by peer.
spec fn by_peer(entries: Seq<PendingHandshake>) -> Map<PeerAddr, Challenge>
    decreases entries.len(),
{
    if entries.len() == 0 {
        Map::empty()
    } else {
        by_peer(entries.drop_last()).insert(entries.last().peer, entries.last().challenge_view())
    }
}

/// No peer occurs twice.
spec fn distinct(entries: Seq<PendingHandshake>) -> bool {
    forall|i: int, j: int|
        0 <= i < j < entries.len() ==> (#[trigger] entries[i]).peer != (#[trigger] entries[j]).peer
}

impl View for Handshakes {
    type V = Map<PeerAddr, Challenge>;

    closed spec fn view(&self) -> Map<PeerAddr, Challenge> {
        by_peer(self.entries@)
    }
}

/// Whether a handshake has taken too long.
pub open spec fn is_expired(c: Challenge, now: Nanos, timeout: Nanos) -> bool {
    retransmit::elapsed(now, c.created) >= timeout
}

/// The handshakes that have not taken too long.
pub open spec fn unexpired(m: Map<PeerAddr, Challenge>, now: Nanos, timeout: Nanos) -> Map<
    PeerAddr,
    Challenge,
> {
    Map::new(
        |p: PeerAddr| m.contains_key(p) && !is_expired(m[p], now, timeout),
        |p: PeerAddr| m[p],
    )
}

/// What a list of distinct peers holds.
proof fn by_peer_meaning(entries: Seq<PendingHandshake>)
    requires
        distinct(entries),
    ensures
        forall|i: int|
            0 <= i < entries.len() ==> by_peer(entries).contains_key((#[trigger] entries[i]).peer)
                && by_peer(entries)[entries[i].peer] == entries[i].challenge_view(),
        forall|p: PeerAddr| #[trigger]
            by_peer(entries).contains_key(p) ==> exists|i: int|
                0 <= i < entries.len() && (#[trigger] entries[i]).peer == p,
    decreases entries.len(),
{
    if entries.len() > 0 {
        let init = entries.drop_last();
        assert forall|i: int, j: int| 0 <= i < j < init.len() implies (#[trigger] init[i]).peer != (
        #[trigger] init[j]).peer by {
            assert(init[i] == entries[i]);
            assert(init[j] == entries[j]);
        }
        by_peer_meaning(init);
        assert forall|i: int| 0 <= i < entries.len() implies by_peer(entries).contains_key(
            (#[trigger] entries[i]).peer,
        ) && by_peer(entries)[entries[i].peer] == entries[i].challenge_view() by {
            if i < init.len() {
                assert(init[i] == entries[i]);
                assert(entries[entries.len() - 1].peer != entries[i].peer);
            }
        }
        assert forall|p: PeerAddr| #[trigger] by_peer(entries).contains_key(p) implies exists|i: int|
            0 <= i < entries.len() && (#[trigger] entries[i]).peer == p by {
            if p == entries.last().peer {
                assert(entries[entries.len() - 1].peer == p);
            } else {
                assert(by_peer(init).contains_key(p));
                let i = choose|i: int| 0 <= i < init.len() && (#[trigger] init[i]).peer == p;
                assert(entries[i].peer == p);
            }
        }
    }
}

impl Handshakes {
    /// No peer occurs twice.
    pub closed spec fn wf(&self) -> bool {
        distinct(self.entries@)
    }

    /// No handshakes.
    pub fn new() -> (h: Self)
        ensures
            h.wf(),
            h@ == Map::<PeerAddr, Challenge>::empty(),
    {
        Handshakes { entries: Vec::new() }
    }

    /// The challenge that a peer was sent.
    pub fn get(&self, peer: PeerAddr) -> (r: Option<[u8; 8]>)
        requires
            self.wf(),
        ensures
            match r {
                Some(c) => self@.contains_key(peer) && self@[peer].bytes == c@,
                None => !self@.contains_key(peer),
            },
    {
        proof {
            by_peer_meaning(self.entries@);
        }
        let mut i: usize = 0;
        while i < self.entries.len()
            invariant
                i <= self.entries@.len(),
                forall|j: int| 0 <= j < i ==> (#[trigger] self.entries@[j]).peer != peer,
                forall|j: int|
                    0 <= j < self.entries@.len() ==> self@.contains_key(
                        (#[trigger] self.entries@[j]).peer,
                    ) && self@[self.entries@[j].peer] == self.entries@[j].challenge_view(),
                forall|p: PeerAddr| #[trigger]
                    self@.contains_key(p) ==> exists|j: int|
                        0 <= j < self.entries@.len() && (#[trigger] self.entries@[j]).peer == p,
            decreases self.entries@.len() - i,
        {
            if self.entries[i].peer == peer {
                return Some(self.entries[i].challenge);
            }
            i = i + 1;
        }
        None
    }

    /// Forgets a peer.
    pub fn remove(&mut self, peer: PeerAddr)
        requires
            old(self).wf(),
        ensures
            final(self).wf(),
            final(self)@ == old(self)@.remove(peer),
    {
        self.keep(Some(peer), 0, u64::MAX);
    }

    /// Forgets the handshakes that have taken too long.
    pub fn expire(&mut self, now: Nanos, timeout: Nanos)
        requires
            old(self).wf(),
        ensures
            final(self).wf(),
            final(self)@ == unexpired(old(self)@, now, timeout),
    {
        self.keep(None, now, timeout);
        assert(self@ =~= unexpired(old(self)@, now, timeout));
    }

    /// Keeps the handshakes that have not taken too long and are not those of `without`; nothing
    /// has taken too long if the limit is the longest time there is.
    fn keep(&mut self, without: Option<PeerAddr>, now: Nanos, timeout: Nanos)
        requires
            old(self).wf(),
        ensures
            final(self).wf(),
            ({
                let m = old(self)@;
                let gone = |p: PeerAddr| without == Some(p) || is_expired(m[p], now, timeout);
                final(self)@ == Map::new(
                    |p: PeerAddr| m.contains_key(p) && !gone(p),
                    |p: PeerAddr| m[p],
                )
            }),
    {
        let ghost was = self.entries@;
        let ghost m = self@;
        proof {
            by_peer_meaning(was);
        }
        let mut kept: Vec<PendingHandshake> = Vec::new();
        let mut i: usize = 0;
        while i < self.entries.len()
            invariant
                self.entries@ == was,
                distinct(was),
                m == by_peer(was),
                i <= was.len(),
                distinct(kept@),
                forall|j: int|
                    0 <= j < was.len() ==> m.contains_key((#[trigger] was[j]).peer)
                        && m[was[j].peer] == was[j].challenge_view(),
                forall|j: int|
                    0 <= j < kept@.len() ==> exists|k: int|
                        0 <= k < i && #[trigger] was[k] == #[trigger] kept@[j] && without != Some(
                            was[k].peer,
                        ) && !is_expired(was[k].challenge_view(), now, timeout),
                forall|k: int|
                    0 <= k < i && without != Some((#[trigger] was[k]).peer) && !is_expired(
                        was[k].challenge_view(),
                        now,
                        timeout,
                    ) ==> exists|j: int| 0 <= j < kept@.len() && #[trigger] kept@[j] == was[k],
            decreases was.len() - i,
        {
            let e = self.entries[i];
            let dropped: bool = match without {
                Some(p) => p == e.peer,
                None => false,
            };
            let ghost before = kept@;
            if !dropped && now.saturating_sub(e.created) < timeout {
                kept.push(e);
                proof {
                    assert(kept@[before.len() as int] == was[i as int]);
                    assert forall|a: int, b: int| 0 <= a < b < kept@.len() implies (#[trigger] kept@[a]).peer
                        != (#[trigger] kept@[b]).peer by {
                        assert(kept@[a] == before[a]);
                        let k = choose|k: int|
                            0 <= k < i && #[trigger] was[k] == before[a] && without != Some(
                                was[k].peer,
                            ) && !is_expired(was[k].challenge_view(), now, timeout);
                        assert(was[k].peer != was[i as int].peer);
                        if b < before.len() {
                            assert(kept@[b] == before[b]);
                        }
                    }
                }
            }
            proof {
                assert forall|j: int| 0 <= j < kept@.len() implies exists|k: int|
                    0 <= k < i + 1 && #[trigger] was[k] == #[trigger] kept@[j] && without != Some(
                        was[k].peer,
                    ) && !is_expired(was[k].challenge_view(), now, timeout) by {
                    if j < before.len() {
                        assert(kept@[j] == before[j]);
                        let k = choose|k: int|
                            0 <= k < i && #[trigger] was[k] == before[j] && without != Some(
                                was[k].peer,
                            ) && !is_expired(was[k].challenge_view(), now, timeout);
                        assert(was[k] == kept@[j]);
                    } else {
                        assert(was[i as int] == kept@[j]);
                    }
                }
                assert forall|k: int|
                    0 <= k < i + 1 && without != Some((#[trigger] was[k]).peer) && !is_expired(
                        was[k].challenge_view(),
                        now,
                        timeout,
                    ) implies exists|j: int| 0 <= j < kept@.len() && #[trigger] kept@[j] == was[k] by {
                    if k < i {
                        let j = choose|j: int| 0 <= j < before.len() && #[trigger] before[j] == was[k];
                        assert(kept@[j] == was[k]);
                    } else {
                        assert(kept@[before.len() as int] == was[k]);
                    }
                }
            }
            i = i + 1;
        }
        self.entries = kept;
        proof {
            by_peer_meaning(kept@);
            let gone = |p: PeerAddr| without == Some(p) || is_expired(m[p], now, timeout);
            let want = Map::new(|p: PeerAddr| m.contains_key(p) && !gone(p), |p: PeerAddr| m[p]);
            assert forall|p: PeerAddr| #[trigger] self@.contains_key(p) implies want.contains_key(p)
                && self@[p] == want[p] by {
                let j = choose|j: int| 0 <= j < kept@.len() && (#[trigger] kept@[j]).peer == p;
                let k = choose|k: int|
                    0 <= k < i && #[trigger] was[k] == kept@[j] && without != Some(was[k].peer)
                        && !is_expired(was[k].challenge_view(), now, timeout);
                assert(m.contains_key(was[k].peer));
            }
            assert forall|p: PeerAddr| #[trigger] want.contains_key(p) implies self@.contains_key(p) by {
                let k = choose|k: int| 0 <= k < was.len() && (#[trigger] was[k]).peer == p;
                let j = choose|j: int| 0 <= j < kept@.len() && #[trigger] kept@[j] == was[k];
                assert(self@.contains_key(kept@[j].peer));
            }
            assert(self@ =~= want);
        }
    }

    /// Remembers that a peer was challenged.
    pub fn insert(&mut self, peer: PeerAddr, challenge: [u8; 8], now: Nanos)
        requires
            old(self).wf(),
            !old(self)@.contains_key(peer),
        ensures
            final(self).wf(),
            final(self)@ == old(self)@.insert(
                peer,
                Challenge { bytes: challenge@, created: now },
            ),
    {
        proof {
            by_peer_meaning(self.entries@);
        }
        let ghost was = self.entries@;
        self.entries.push(PendingHandshake { peer, challenge, created: now });
        assert(self.entries@.drop_last() =~= was);
    }
}

} // verus!
