//! The sessions by connection id, spread over shards.
//!
//! A session is found by its connection id and not by its address, so that a peer may change its
//! address.

use std::collections::HashMap;
use vstd::prelude::*;

use crate::collections::keys_of;
use crate::session::peer::{Session, SessionData};

verus! {

broadcast use vstd::std_specs::hash::group_hash_axioms;

/// The sessions by connection id.
#[derive(Debug)]
pub struct SessionStore {
    shards: Vec<HashMap<u32, Session>>,
}

impl View for SessionStore {
    type V = Map<u32, SessionData>;

    closed spec fn view(&self) -> Map<u32, SessionData> {
        Map::new(|k: u32| self.shard_of(k).contains_key(k), |k: u32| self.shard_of(k)[k]@)
    }
}

impl SessionStore {
    /// The shard that a connection id belongs to.
    spec fn shard_of(&self, k: u32) -> Map<u32, Session> {
        self.shards@[k as int % self.shards@.len() as int]@
    }

    /// Every session stands in the shard of its connection id.
    pub closed spec fn wf(&self) -> bool {
        &&& self.shards@.len() > 0
        &&& forall|i: int, k: u32|
            0 <= i < self.shards@.len() && #[trigger] self.shards@[i]@.contains_key(k) ==> k as int
                % self.shards@.len() as int == i
    }

    /// An empty store with `n` shards, at least one.
    pub fn new(n: usize) -> (s: Self)
        ensures
            s.wf(),
            s@ == Map::<u32, SessionData>::empty(),
    {
        let count: usize = if n == 0 {
            1
        } else {
            n
        };
        let mut shards: Vec<HashMap<u32, Session>> = Vec::new();
        let mut i: usize = 0;
        while i < count
            invariant
                i <= count,
                shards@.len() == i,
                forall|j: int| 0 <= j < i ==> (#[trigger] shards@[j])@ == Map::<u32, Session>::empty(),
            decreases count - i,
        {
            shards.push(HashMap::new());
            i = i + 1;
        }
        let s = SessionStore { shards };
        assert(s@ =~= Map::<u32, SessionData>::empty());
        s
    }

    /// The index of the shard of a connection id.
    fn shard(&self, conn_id: u32) -> (i: usize)
        requires
            self.wf(),
        ensures
            i < self.shards@.len(),
            i == conn_id as int % self.shards@.len() as int,
    {
        let n: u64 = self.shards.len() as u64;
        (conn_id as u64 % n) as usize
    }

    /// The session with a connection id.
    pub fn get(&self, conn_id: u32) -> (r: Option<&Session>)
        requires
            self.wf(),
        ensures
            match r {
                Some(s) => self@.contains_key(conn_id) && s@ == self@[conn_id],
                None => !self@.contains_key(conn_id),
            },
    {
        let i: usize = self.shard(conn_id);
        self.shards[i].get(&conn_id)
    }

    /// Takes the session with a connection id out.
    pub fn take(&mut self, conn_id: u32) -> (r: Option<Session>)
        requires
            old(self).wf(),
        ensures
            final(self).wf(),
            final(self)@ == old(self)@.remove(conn_id),
            match r {
                Some(s) => old(self)@.contains_key(conn_id) && s@ == old(self)@[conn_id],
                None => !old(self)@.contains_key(conn_id),
            },
    {
        let i: usize = self.shard(conn_id);
        let ghost was = self.shards@;
        let ghost n = was.len() as int;
        let shard = &mut self.shards[i];
        let r = shard.remove(&conn_id);
        assert(self.shards@ =~= was.update(i as int, self.shards@[i as int]));
        assert(self.shards@[i as int]@ == was[i as int]@.remove(conn_id));
        assert forall|j: int, k: u32|
            0 <= j < n && #[trigger] self.shards@[j]@.contains_key(k) implies k as int % n == j by {
            assert(was[j]@.contains_key(k));
        }
        assert(self@ =~= old(self)@.remove(conn_id));
        r
    }

    /// Puts a session in; one with the same connection id is replaced.
    pub fn put(&mut self, conn_id: u32, s: Session)
        requires
            old(self).wf(),
        ensures
            final(self).wf(),
            final(self)@ == old(self)@.insert(conn_id, s@),
    {
        let i: usize = self.shard(conn_id);
        let ghost was = self.shards@;
        let ghost n = was.len() as int;
        let shard = &mut self.shards[i];
        let _old = shard.insert(conn_id, s);
        assert(self.shards@ =~= was.update(i as int, self.shards@[i as int]));
        assert(self.shards@[i as int]@ == was[i as int]@.insert(conn_id, s));
        assert forall|j: int, k: u32|
            0 <= j < n && #[trigger] self.shards@[j]@.contains_key(k) implies k as int % n == j by {
            if j != i || k != conn_id {
                assert(was[j]@.contains_key(k));
            }
        }
        assert(self@ =~= old(self)@.insert(conn_id, s@));
    }

    /// The keys in the first `n` shards.
    closed spec fn keys_upto(&self, n: int) -> Set<u32> {
        Set::new(
            |k: u32| self@.contains_key(k) && k as int % (self.shards@.len() as int) < n,
        )
    }

    /// The number of sessions.
    pub fn len(&self) -> (n: usize)
        requires
            self.wf(),
        ensures
            self@.dom().finite(),
            self@.dom().len() <= usize::MAX ==> n == self@.dom().len(),
            self@.dom().len() > usize::MAX ==> n == usize::MAX,
    {
        let mut n: usize = 0;
        let mut i: usize = 0;
        assert(self.keys_upto(0) =~= Set::<u32>::empty());
        while i < self.shards.len()
            invariant
                self.wf(),
                i <= self.shards@.len(),
                self.keys_upto(i as int).finite(),
                n == (if self.keys_upto(i as int).len() <= usize::MAX {
                    self.keys_upto(i as int).len() as int
                } else {
                    usize::MAX as int
                }),
            decreases self.shards@.len() - i,
        {
            proof {
                let a = self.keys_upto(i as int);
                let b = self.shards@[i as int]@.dom();
                assert forall|k: u32| #[trigger] a.contains(k) implies !b.contains(k) by {
                    if b.contains(k) {
                        assert(self.shards@[i as int]@.contains_key(k));
                    }
                }
                assert(a.disjoint(b));
                vstd::set_lib::lemma_set_disjoint_lens(a, b);
                assert forall|k: u32| #[trigger] self.keys_upto(i + 1).contains(k) == (a + b).contains(
                    k,
                ) by {
                    if b.contains(k) {
                        assert(self.shards@[i as int]@.contains_key(k));
                        assert(self.shard_of(k) == self.shards@[i as int]@);
                    }
                }
                assert(self.keys_upto(i + 1) =~= a + b);
            }
            n = n.saturating_add(self.shards[i].len());
            i = i + 1;
        }
        assert(self.keys_upto(i as int) =~= self@.dom()) by {
            let m = self.shards@.len() as int;
            assert forall|k: u32| #[trigger] self@.contains_key(k) implies k as int % m < i by {}
        }
        n
    }

    /// The connection ids, each once, in some order.
    pub fn conn_ids(&self) -> (ids: Vec<u32>)
        requires
            self.wf(),
        ensures
            ids@.no_duplicates(),
            forall|k: u32| #[trigger] ids@.contains(k) <==> self@.contains_key(k),
    {
        let mut ids: Vec<u32> = Vec::new();
        let mut i: usize = 0;
        while i < self.shards.len()
            invariant
                self.wf(),
                i <= self.shards@.len(),
                ids@.no_duplicates(),
                forall|k: u32| #[trigger]
                    ids@.contains(k) <==> self@.contains_key(k) && (k as int)
                        % (self.shards@.len() as int) < i,
            decreases self.shards@.len() - i,
        {
            let mut more = keys_of(&self.shards[i]);
            let ghost a = ids@;
            let ghost b = more@;
            ids.append(&mut more);
            proof {
                assert(ids@ =~= a + b);
                assert forall|k: u32| #[trigger] b.contains(k) implies self@.contains_key(k) && k as int
                    % (self.shards@.len() as int) == i by {
                    assert(self.shards@[i as int]@.contains_key(k));
                    assert(self.shard_of(k) == self.shards@[i as int]@);
                }
                assert forall|k: u32| #[trigger] ids@.contains(k) == (self@.contains_key(k) && (
                k as int) % (self.shards@.len() as int) < i + 1) by {
                    vstd::seq_lib::lemma_seq_concat_contains_all_elements(a, b, k);
                    if self@.contains_key(k) && (k as int) % (self.shards@.len() as int) == i {
                        assert(self.shards@[i as int]@.contains_key(k));
                        assert(b.contains(k));
                    }
                }
                assert forall|x: int, y: int| 0 <= x < y < ids@.len() implies ids@[x] != ids@[y] by {
                    if x < a.len() && y >= a.len() {
                        assert(a.contains(ids@[x]));
                        assert(b.contains(b[y - a.len()]));
                    }
                }
            }
            i = i + 1;
        }
        assert forall|k: u32| #[trigger] ids@.contains(k) == self@.contains_key(k) by {}
        ids
    }

    /// The connection id of a session with a session id.
    pub fn find(&self, sess_id: u64) -> (r: Option<u32>)
        requires
            self.wf(),
        ensures
            match r {
                Some(k) => self@.contains_key(k) && self@[k].sess_id == sess_id,
                None => forall|k: u32| #[trigger] self@.contains_key(k) ==> self@[k].sess_id != sess_id,
            },
    {
        let ids = self.conn_ids();
        let mut i: usize = 0;
        while i < ids.len()
            invariant
                self.wf(),
                i <= ids@.len(),
                forall|k: u32| #[trigger] ids@.contains(k) <==> self@.contains_key(k),
                forall|j: int| 0 <= j < i ==> self@[#[trigger] ids@[j]].sess_id != sess_id,
            decreases ids@.len() - i,
        {
            let k: u32 = ids[i];
            assert(ids@.contains(k));
            match self.get(k) {
                Some(s) => {
                    if s.sess_id == sess_id {
                        return Some(k);
                    }
                },
                None => {},
            }
            i = i + 1;
        }
        assert forall|k: u32| #[trigger] self@.contains_key(k) implies self@[k].sess_id != sess_id by {
            assert(ids@.contains(k));
        }
        None
    }
}

} // verus!
